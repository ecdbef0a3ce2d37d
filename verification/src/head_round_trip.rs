//! Reading a serialized head, or a rendered section, gives back what it was made of.

use vstd::prelude::*;
use crate::bytes::{
    ByteClass, all_in, any_in, is_control, is_ows, is_trimmed_range, lemma_first_from_unique,
    lemma_trimmed, lowered,
};
use crate::canonical_head::{
    FieldRule, HeadInput, crlf, effective_host, endpoint_text, field_rule, field_text,
    has_edge_ows, head_bytes, head_texts, is_head, is_head_field, is_lower_token, is_target_byte,
    is_wire_target, is_wire_value, kept_texts, lemma_fixed_lengths, lemma_head_size,
    lemma_terminated_concat, lemma_terminated_push, lemma_twenty_digits, request_text, terminated,
    unbroken, uppered, wire_host,
};
use crate::decimal::{digits_of, lemma_digits_of};
use crate::header::{
    FIELD_MAX, NAME_MAX, SECTION_MAX, VALUE_MAX, field_of, lemma_line_end_at,
    lemma_parsers_accept_alike, parsed_whole, section, well_formed_field,
};
use crate::host::lemma_dns_name_bytes;
use crate::ip::{is_ipv6_byte, lemma_ipv6_bytes};
use crate::request_line::{
    MAX_METHOD_BYTES, MAX_REQUEST_LINE_BYTES, byte_fault, http_11, lemma_target_fault, space,
};
use crate::request_target::path_end;
use crate::route::is_upper_hex;
use crate::text::{lemma_ascii_literal, utf8};
use crate::types::{BlockModel, BodyFraming, Fault, FieldModel, HttpVersion, RequestLineModel};

verus! {

/// The fields that are passed on.
pub open spec fn kept_fields(fields: Seq<FieldModel>) -> Seq<FieldModel>
    decreases fields.len(),
{
    if fields.len() == 0 {
        Seq::empty()
    } else if field_rule(fields.last().name) == FieldRule::Keep {
        kept_fields(fields.drop_last()).push(fields.last())
    } else {
        kept_fields(fields.drop_last())
    }
}

pub open spec fn framing_fields(framing: BodyFraming) -> Seq<FieldModel> {
    match framing {
        BodyFraming::NoBody => Seq::empty(),
        BodyFraming::ContentLength(length) => seq![
            FieldModel { name: utf8("Content-Length"@), value: digits_of(length as nat) },
        ],
        BodyFraming::Chunked => seq![
            FieldModel { name: utf8("Transfer-Encoding"@), value: utf8("chunked"@) },
        ],
    }
}

/// The fields of a head as they are written.
pub open spec fn written_fields(input: HeadInput) -> Seq<FieldModel> {
    seq![
        FieldModel {
            name: utf8("Host"@),
            value: endpoint_text(effective_host(input.authority).unwrap(), input.authority.port),
        },
    ] + kept_fields(input.headers.fields) + seq![
        FieldModel { name: utf8("Forwarded"@), value: input.forwarding.forwarded },
        FieldModel { name: utf8("X-Forwarded-For"@), value: input.forwarding.x_forwarded_for },
        FieldModel { name: utf8("X-Forwarded-Proto"@), value: input.forwarding.x_forwarded_proto },
        FieldModel { name: utf8("X-Forwarded-Host"@), value: input.forwarding.x_forwarded_host },
    ] + framing_fields(input.framing) + seq![
        FieldModel { name: utf8("Connection"@), value: utf8("close"@) },
    ]
}

/// Fields with their names in lower case.
pub open spec fn lowered_fields(fields: Seq<FieldModel>) -> Seq<FieldModel> {
    fields.map_values(
        |field: FieldModel| FieldModel { name: lowered(field.name), value: field.value },
    )
}

/// The lines of fields.
pub open spec fn field_texts(fields: Seq<FieldModel>) -> Seq<Seq<u8>> {
    fields.map_values(|field: FieldModel| field_text(field.name, field.value))
}

/// Whether a field reads back as it was written.
spec fn is_readable(field: FieldModel) -> bool {
    &&& 1 <= field.name.len() <= NAME_MAX
    &&& all_in(field.name, ByteClass::Token)
    &&& field.value.len() <= VALUE_MAX
    &&& all_in(field.value, ByteClass::Field)
    &&& !has_edge_ows(field.value)
}

proof fn lemma_kept_field_texts(fields: Seq<FieldModel>)
    ensures
        kept_texts(fields) == field_texts(kept_fields(fields)),
    decreases fields.len(),
{
    if fields.len() > 0 {
        lemma_kept_field_texts(fields.drop_last());
        assert(kept_texts(fields) =~= field_texts(kept_fields(fields)));
    } else {
        assert(kept_texts(fields) =~= field_texts(kept_fields(fields)));
    }
}

/// A head is its request line, its fields, and an empty line.
proof fn lemma_head_shape(input: HeadInput)
    ensures
        head_bytes(input) == request_text(input.method, input.target.path_and_query) + crlf() + (
        terminated(field_texts(written_fields(input))) + crlf()),
{
    let request = request_text(input.method, input.target.path_and_query);
    let texts = field_texts(written_fields(input));
    let empty = Seq::<u8>::empty();
    lemma_kept_field_texts(input.headers.fields);
    assert(head_texts(input) =~= seq![request] + texts + seq![empty]);
    let none = Seq::<Seq<u8>>::empty();
    assert(terminated(none) =~= empty);
    lemma_terminated_concat(seq![request] + texts, seq![empty]);
    lemma_terminated_concat(seq![request], texts);
    lemma_terminated_push(none, request);
    lemma_terminated_push(none, empty);
    assert(none.push(request) =~= seq![request]);
    assert(none.push(empty) =~= seq![empty]);
    assert(head_bytes(input) =~= request + crlf() + (terminated(texts) + crlf()));
}

/// A written field is read back from its line.
proof fn lemma_line_reads(field: FieldModel, offset: int)
    requires
        is_readable(field),
    ensures
        field_of(field_text(field.name, field.value), offset) == Ok::<FieldModel, Fault>(
            FieldModel { name: lowered(field.name), value: field.value },
        ),
        unbroken(field_text(field.name, field.value)),
        field_text(field.name, field.value).len() > 0,
{
    lemma_fixed_lengths();
    reveal_strlit(": ");
    lemma_ascii_literal(": "@);
    let line = field_text(field.name, field.value);
    let n = field.name.len() as int;
    let only = ByteClass::Only(':' as u8);
    assert forall|j: int| 0 <= j < line.len() implies #[trigger] line[j] != '\r' as u8 && line[j]
        != '\n' as u8 by {
        if j < n {
            assert(ByteClass::Token.has(field.name[j]));
        } else if j >= n + 2 {
            assert(ByteClass::Field.has(field.value[j - n - 2]));
            assert(line[j] == field.value[j - n - 2]);
        }
    }
    assert forall|j: int| 0 <= j < n implies !only.has(#[trigger] line[j]) && !is_ows(line[j]) by {
        assert(ByteClass::Token.has(field.name[j]));
        assert(line[j] == field.name[j]);
    }
    assert(line[n] == ':' as u8);
    lemma_first_from_unique(line, only, 0, n);
    assert(line.subrange(0, n) =~= field.name);
    assert(!any_in(field.name, ByteClass::Ows)) by {
        assert forall|j: int| 0 <= j < n implies !ByteClass::Ows.has(#[trigger] field.name[j]) by {
            assert(ByteClass::Token.has(field.name[j]));
        }
    }
    let value = line.subrange(n + 1, line.len() as int);
    assert(value =~= seq![' ' as u8] + field.value);
    assert forall|j: int| 0 <= j < value.len() implies ByteClass::Field.has(#[trigger] value[j]) by {
        if j > 0 {
            assert(ByteClass::Field.has(field.value[j - 1]));
        }
    }
    assert(is_trimmed_range(value, 1, value.len() as int)) by {
        if field.value.len() > 0 {
            assert(value[1] == field.value[0]);
            assert(value[value.len() - 1] == field.value.last());
        }
    }
    lemma_trimmed(value, 1, value.len() as int);
    assert(value.subrange(1, value.len() as int) =~= field.value);
}

/// Where the field after the first `k` ones begins.
spec fn offset_of(fields: Seq<FieldModel>, k: int) -> int {
    terminated(field_texts(fields).take(k)).len() as int
}

proof fn lemma_offset_step(fields: Seq<FieldModel>, k: int)
    requires
        0 <= k < fields.len(),
    ensures
        ({
            let text = field_text(fields[k].name, fields[k].value);
            let section = terminated(field_texts(fields)) + crlf();
            let start = offset_of(fields, k);
            let end = start + text.len();
            &&& 0 <= start
            &&& offset_of(fields, k + 1) == end + 2
            &&& end + 2 <= section.len() - 2
            &&& section.subrange(start, end) == text
            &&& section[end] == '\r' as u8
            &&& section[end + 1] == '\n' as u8
        }),
{
    let texts = field_texts(fields);
    let text = field_text(fields[k].name, fields[k].value);
    let before = texts.take(k);
    let after = texts.skip(k + 1);
    let section = terminated(texts) + crlf();
    assert(texts.take(k + 1) =~= before.push(text));
    lemma_terminated_push(before, text);
    assert(texts =~= texts.take(k + 1) + after);
    lemma_terminated_concat(texts.take(k + 1), after);
    let start = offset_of(fields, k);
    let end = start + text.len();
    assert(section =~= terminated(before) + text + crlf() + terminated(after) + crlf());
    assert(section.subrange(start, end) =~= text);
}

/// A section of readable fields is read back, from any field on.
proof fn lemma_section_reads(fields: Seq<FieldModel>, k: int)
    requires
        0 <= k <= fields.len() <= FIELD_MAX,
        forall|i: int| 0 <= i < fields.len() ==> is_readable(#[trigger] fields[i]),
        terminated(field_texts(fields)).len() + 2 <= SECTION_MAX,
    ensures
        ({
            let input = terminated(field_texts(fields)) + crlf();
            section(input, offset_of(fields, k), lowered_fields(fields.take(k))) == Ok::<
                BlockModel,
                Fault,
            >(
                BlockModel {
                    fields: lowered_fields(fields),
                    bytes_consumed: input.len() as int,
                },
            )
        }),
    decreases fields.len() - k,
{
    let input = terminated(field_texts(fields)) + crlf();
    let start = offset_of(fields, k);
    let read = lowered_fields(fields.take(k));
    if k < fields.len() {
        let field = fields[k];
        let text = field_text(field.name, field.value);
        let end = start + text.len();
        lemma_line_reads(field, start);
        lemma_offset_step(fields, k);
        assert forall|j: int| start <= j < end implies !ByteClass::LineBreak.has(
            #[trigger] input[j],
        ) by {
            assert(input.subrange(start, end)[j - start] == input[j]);
        }
        lemma_line_end_at(input, start, start, end, false);
        assert(crate::header::line_end(input, start, start, false) == Ok::<int, Fault>(end));
        lemma_section_reads(fields, k + 1);
        assert(lowered_fields(fields.take(k + 1)) =~= read.push(
            FieldModel { name: lowered(field.name), value: field.value },
        ));
    } else {
        assert(field_texts(fields).take(k) =~= field_texts(fields));
        assert(start == input.len() - 2);
        assert(input[start] == '\r' as u8);
        assert(input[start + 1] == '\n' as u8);
        assert(crate::header::line_end(input, start, start, false) == Ok::<int, Fault>(start));
        assert(fields.take(k) =~= fields);
    }
}

/// A section as it is written: a line for each field, and an empty line.
pub open spec fn rendered(fields: Seq<FieldModel>) -> Seq<u8> {
    terminated(field_texts(fields)) + crlf()
}

/// To parse a rendered section gives the fields back, in their order and as often as they come,
/// whatever follows the section.
pub proof fn lemma_section_reads_back(fields: Seq<FieldModel>, tail: Seq<u8>)
    requires
        fields.len() <= FIELD_MAX,
        forall|i: int| 0 <= i < fields.len() ==> well_formed_field(#[trigger] fields[i]),
        rendered(fields).len() <= SECTION_MAX,
    ensures
        ({
            let block = BlockModel { fields, bytes_consumed: rendered(fields).len() as int };
            &&& crate::header::parsed(rendered(fields) + tail) == Ok::<BlockModel, Fault>(block)
            &&& forall|hasty: bool, greedy: bool|
                #[trigger] parsed_whole(rendered(fields) + tail, hasty, greedy) == Ok::<
                    BlockModel,
                    Fault,
                >(block)
        }),
{
    let input = rendered(fields);
    assert forall|i: int| 0 <= i < fields.len() implies is_readable(#[trigger] fields[i]) by {
        assert(well_formed_field(fields[i]));
    }
    lemma_section_reads(fields, 0);
    assert(field_texts(fields).take(0) =~= Seq::<Seq<u8>>::empty());
    assert(lowered_fields(fields.take(0)) =~= Seq::<FieldModel>::empty());
    assert(lowered_fields(fields) =~= fields) by {
        assert forall|i: int| 0 <= i < fields.len() implies #[trigger] lowered_fields(fields)[i]
            == fields[i] by {
            assert(well_formed_field(fields[i]));
        }
    }
    crate::header::lemma_parsed_is_local(input, tail);
    assert(input.take(input.len() as int) =~= input);
    assert forall|hasty: bool, greedy: bool| #[trigger]
        parsed_whole(input + tail, hasty, greedy) == crate::header::parsed(input + tail) by {
        lemma_parsers_accept_alike(input + tail, hasty, greedy);
    }
}

proof fn lemma_kept_fields_readable(fields: Seq<FieldModel>)
    requires
        forall|i: int| 0 <= i < fields.len() ==> is_head_field(#[trigger] fields[i]),
    ensures
        forall|i: int|
            0 <= i < kept_fields(fields).len() ==> is_readable(#[trigger] kept_fields(fields)[i]),
    decreases fields.len(),
{
    if fields.len() > 0 {
        let shorter = fields.drop_last();
        assert forall|i: int| 0 <= i < shorter.len() implies is_head_field(#[trigger] shorter[i]) by {
            assert(is_head_field(fields[i]));
        }
        lemma_kept_fields_readable(shorter);
        assert(is_head_field(fields[fields.len() - 1]));
        let all = kept_fields(fields);
        assert forall|i: int| 0 <= i < all.len() implies is_readable(#[trigger] all[i]) by {
            if i < kept_fields(shorter).len() {
                assert(all[i] == kept_fields(shorter)[i]);
            }
        }
    }
}

proof fn lemma_printable_is_field(s: Seq<u8>)
    requires
        all_in(s, ByteClass::Printable),
    ensures
        all_in(s, ByteClass::Field),
{
    assert forall|i: int| 0 <= i < s.len() implies ByteClass::Field.has(#[trigger] s[i]) by {
        assert(ByteClass::Printable.has(s[i]));
    }
}

proof fn lemma_wire_value_readable(value: Seq<u8>, isolated: bool)
    requires
        is_wire_value(value, isolated),
    ensures
        value.len() <= VALUE_MAX,
        all_in(value, ByteClass::Field),
        !has_edge_ows(value),
{
    lemma_printable_is_field(value);
    assert(ByteClass::Printable.has(value[0]));
    assert(ByteClass::Printable.has(value[value.len() - 1]));
}

proof fn lemma_digits_readable(n: nat)
    ensures
        all_in(digits_of(n), ByteClass::Field),
        !has_edge_ows(digits_of(n)),
        digits_of(n).len() > 0,
{
    lemma_digits_of(n);
    let digits = digits_of(n);
    assert forall|i: int| 0 <= i < digits.len() implies ByteClass::Field.has(#[trigger] digits[i]) by {
        assert(ByteClass::Digit.has(digits[i]));
    }
    assert(ByteClass::Digit.has(digits[0]));
    assert(ByteClass::Digit.has(digits[digits.len() - 1]));
}

/// The byte of a host or a port as they are serialized.
spec fn is_endpoint_byte(b: u8) -> bool {
    ByteClass::Authority.has(b)
}

proof fn lemma_endpoint_readable(host: Seq<u8>, port: Option<u16>)
    requires
        wire_host(host) is Some,
    ensures
        ({
            let text = endpoint_text(wire_host(host).unwrap(), port);
            &&& text.len() > 0
            &&& all_in(text, ByteClass::Field)
            &&& !has_edge_ows(text)
        }),
{
    let model = wire_host(host).unwrap();
    let text = endpoint_text(model, port);
    if model.is_v6 {
        lemma_ipv6_bytes(model.text);
    } else {
        lemma_dns_name_bytes(model.text);
    }
    assert forall|i: int| 0 <= i < model.text.len() implies is_endpoint_byte(
        #[trigger] model.text[i],
    ) by {
        if model.is_v6 {
            assert(is_ipv6_byte(model.text[i]));
        } else {
            assert(ByteClass::Label.has(model.text[i]) || model.text[i] == '.' as u8);
        }
    }
    let front = if model.is_v6 {
        seq!['[' as u8] + model.text + seq![']' as u8]
    } else {
        model.text
    };
    assert forall|i: int| 0 <= i < front.len() implies is_endpoint_byte(#[trigger] front[i]) by {
        if model.is_v6 && 0 < i < front.len() - 1 {
            assert(front[i] == model.text[i - 1]);
        }
    }
    if let Some(number) = port {
        lemma_digits_of(number as nat);
    }
    assert forall|i: int| 0 <= i < text.len() implies is_endpoint_byte(#[trigger] text[i]) by {
        if i < front.len() {
            assert(text[i] == front[i]);
        } else if i > front.len() {
            let digits = digits_of(port.unwrap() as nat);
            assert(text[i] == digits[i - front.len() - 1]);
            assert(ByteClass::Digit.has(digits[i - front.len() - 1]));
        }
    }
    assert forall|i: int| 0 <= i < text.len() implies ByteClass::Field.has(#[trigger] text[i]) by {
        assert(is_endpoint_byte(text[i]));
    }
    assert(is_endpoint_byte(text[0]));
    assert(is_endpoint_byte(text[text.len() - 1]));
}

proof fn lemma_fixed_readable()
    ensures
        all_in(utf8("Forwarded"@), ByteClass::Token),
        all_in(utf8("X-Forwarded-For"@), ByteClass::Token),
        all_in(utf8("X-Forwarded-Proto"@), ByteClass::Token),
        all_in(utf8("X-Forwarded-Host"@), ByteClass::Token),
        all_in(utf8("Content-Length"@), ByteClass::Token),
        all_in(utf8("Transfer-Encoding"@), ByteClass::Token),
        all_in(utf8("Connection"@), ByteClass::Token),
        all_in(utf8("Host"@), ByteClass::Token),
        all_in(utf8("chunked"@), ByteClass::Token),
        all_in(utf8("close"@), ByteClass::Token),
{
    reveal_strlit("Forwarded");
    reveal_strlit("X-Forwarded-For");
    reveal_strlit("X-Forwarded-Proto");
    reveal_strlit("X-Forwarded-Host");
    reveal_strlit("Content-Length");
    reveal_strlit("Transfer-Encoding");
    reveal_strlit("chunked");
    reveal_strlit("Connection");
    reveal_strlit("close");
    reveal_strlit("Host");
    lemma_ascii_literal("Forwarded"@);
    lemma_ascii_literal("X-Forwarded-For"@);
    lemma_ascii_literal("X-Forwarded-Proto"@);
    lemma_ascii_literal("X-Forwarded-Host"@);
    lemma_ascii_literal("Content-Length"@);
    lemma_ascii_literal("Transfer-Encoding"@);
    lemma_ascii_literal("chunked"@);
    lemma_ascii_literal("Connection"@);
    lemma_ascii_literal("close"@);
    lemma_ascii_literal("Host"@);
}

proof fn lemma_token_value_readable(value: Seq<u8>)
    requires
        value.len() > 0,
        all_in(value, ByteClass::Token),
    ensures
        all_in(value, ByteClass::Field),
        !has_edge_ows(value),
{
    assert forall|i: int| 0 <= i < value.len() implies ByteClass::Field.has(#[trigger] value[i]) by {
        assert(ByteClass::Token.has(value[i]));
    }
    assert(ByteClass::Token.has(value[0]));
    assert(ByteClass::Token.has(value[value.len() - 1]));
}

proof fn lemma_written_readable(input: HeadInput, isolated: bool)
    requires
        is_head(input, isolated),
    ensures
        forall|i: int|
            0 <= i < written_fields(input).len() ==> is_readable(#[trigger] written_fields(input)[i]),
{
    lemma_fixed_lengths();
    lemma_fixed_readable();
    lemma_token_value_readable(utf8("chunked"@));
    lemma_token_value_readable(utf8("close"@));
    lemma_kept_fields_readable(input.headers.fields);
    lemma_wire_value_readable(input.forwarding.forwarded, isolated);
    lemma_wire_value_readable(input.forwarding.x_forwarded_for, isolated);
    lemma_wire_value_readable(input.forwarding.x_forwarded_proto, isolated);
    lemma_wire_value_readable(input.forwarding.x_forwarded_host, isolated);
    lemma_endpoint_readable(input.authority.host, input.authority.port);
    lemma_head_size(input, isolated);
    if let BodyFraming::ContentLength(length) = input.framing {
        lemma_digits_readable(length as nat);
        lemma_digits_short(length);
    }
    let kept = kept_fields(input.headers.fields);
    let framing = framing_fields(input.framing);
    let all = written_fields(input);
    assert forall|i: int| 0 <= i < all.len() implies is_readable(#[trigger] all[i]) by {
        if 0 < i < 1 + kept.len() {
            assert(all[i] == kept[i - 1]);
        } else if 5 + kept.len() <= i < 5 + kept.len() + framing.len() {
            assert(all[i] == framing[i - 5 - kept.len()]);
        }
    }
}

/// The digits of a machine number are few.
proof fn lemma_digits_short(n: u64)
    ensures
        digits_of(n as nat).len() <= VALUE_MAX,
{
    lemma_twenty_digits(n as nat);
}

proof fn lemma_target_bytes(s: Seq<u8>, i: int, upto: int)
    requires
        0 <= i,
        is_wire_target(s, i, upto),
    ensures
        forall|j: int| i <= j < s.len() ==> is_target_byte(#[trigger] s[j]),
    decreases s.len() - i,
{
    if i < s.len() {
        if s[i] == '%' as u8 {
            lemma_target_bytes(s, i + 3, upto);
            assert(is_upper_hex(s[i + 1]) && is_upper_hex(s[i + 2]));
        } else {
            lemma_target_bytes(s, i + 1, upto);
        }
    }
}

/// A line without control bytes goes on to its line ending.
pub proof fn lemma_request_line_found(input: Seq<u8>, end: int, i: int)
    requires
        0 <= i <= end <= MAX_REQUEST_LINE_BYTES,
        end + 2 <= input.len(),
        input[end] == '\r' as u8,
        input[end + 1] == '\n' as u8,
        forall|j: int| 0 <= j < end ==> !is_control(#[trigger] input[j]),
    ensures
        crate::request_line::line_end(input, i) == Ok::<int, Fault>(end),
    decreases end - i,
{
    if i < end {
        assert(!is_control(input[i]));
        lemma_request_line_found(input, end, i + 1);
    }
}

/// The request line is read back.
proof fn lemma_request_reads(method: Seq<u8>, path: Seq<u8>, rest: Seq<u8>)
    requires
        is_lower_token(method, MAX_METHOD_BYTES as int),
        path.len() > 0,
        forall|j: int| 0 <= j < path.len() ==> is_target_byte(#[trigger] path[j]),
        request_text(method, path).len() <= MAX_REQUEST_LINE_BYTES,
    ensures
        crate::request_line::parsed(request_text(method, path) + crlf() + rest) == Ok::<
            RequestLineModel,
            Fault,
        >(
            RequestLineModel {
                method,
                target: path,
                version: HttpVersion::Http11,
                bytes_consumed: request_text(method, path).len() as int + 2,
            },
        ),
{
    let line = request_text(method, path);
    let input = line + crlf() + rest;
    let upper = uppered(method);
    let m = method.len() as int;
    let t = m + 1 + path.len();
    reveal_strlit(" HTTP/1.1");
    lemma_ascii_literal(" HTTP/1.1"@);
    reveal_strlit("HTTP/1.1");
    lemma_ascii_literal("HTTP/1.1"@);
    assert forall|j: int| 0 <= j < m implies ByteClass::Token.has(#[trigger] upper[j]) by {
        assert(ByteClass::Token.has(method[j]));
    }
    assert(line.subrange(0, m) =~= upper);
    assert(line.subrange(m + 1, t) =~= path);
    assert(line.subrange(t + 1, line.len() as int) =~= http_11());
    assert forall|j: int| 0 <= j < line.len() implies !is_control(#[trigger] line[j]) && (line[j]
        == ' ' as u8 <==> j == m || j == t) by {
        if j < m {
            assert(line[j] == upper[j]);
            assert(ByteClass::Token.has(upper[j]));
        } else if m < j < t {
            assert(line[j] == path[j - m - 1]);
            assert(is_target_byte(path[j - m - 1]));
        } else if j > t {
            assert(line[j] == http_11()[j - t - 1]);
        }
    }
    assert forall|j: int| 0 <= j < line.len() implies !is_control(#[trigger] input[j]) by {
        assert(input[j] == line[j]);
    }
    assert(input[line.len() as int] == crlf()[0]);
    assert(input[line.len() as int + 1] == crlf()[1]);
    lemma_request_line_found(input, line.len() as int, 0);
    assert(input.subrange(0, line.len() as int) =~= line);
    let blank = space();
    lemma_first_from_unique(line, blank, 0, m);
    lemma_first_from_unique(line, blank, m + 1, t);
    lemma_first_from_unique(line, blank, t + 1, line.len() as int);
    assert(!any_in(line, ByteClass::Only('\t' as u8))) by {
        assert forall|j: int| 0 <= j < line.len() implies !ByteClass::Only('\t' as u8).has(
            #[trigger] line[j],
        ) by {
            assert(!is_control(line[j]));
        }
    }
    lemma_target_fault(path, 0);
    assert(crate::request_line::target_fault(path, 0) is None) by {
        assert forall|j: int| 0 <= j < path.len() implies byte_fault(#[trigger] path[j]) is None by {
            assert(is_target_byte(path[j]));
        }
    }
    assert(lowered(upper) =~= method) by {
        assert forall|j: int| 0 <= j < m implies #[trigger] lowered(upper)[j] == method[j] by {
            assert(!ByteClass::Upper.has(method[j]));
        }
    }
}

/// Whoever reads a head finds what it was made of: the method and the target in the request line,
/// and then the fields in the order in which they were written, their names in lower case. This
/// holds of every head whose request line and whose fields are within what a reader takes.
pub proof fn lemma_head_reads_back(input: HeadInput, isolated: bool)
    requires
        is_head(input, isolated),
        request_text(input.method, input.target.path_and_query).len() <= MAX_REQUEST_LINE_BYTES,
        written_fields(input).len() <= FIELD_MAX,
        head_bytes(input).len() - request_text(
            input.method,
            input.target.path_and_query,
        ).len() - 2 <= SECTION_MAX,
    ensures
        ({
            let consumed = request_text(input.method, input.target.path_and_query).len() as int + 2;
            &&& crate::request_line::parsed(head_bytes(input)) == Ok::<RequestLineModel, Fault>(
                RequestLineModel {
                    method: input.method,
                    target: input.target.path_and_query,
                    version: HttpVersion::Http11,
                    bytes_consumed: consumed,
                },
            )
            &&& crate::header::parsed(head_bytes(input).skip(consumed)) == Ok::<BlockModel, Fault>(
                BlockModel {
                    fields: lowered_fields(written_fields(input)),
                    bytes_consumed: head_bytes(input).len() - consumed,
                },
            )
        }),
{
    let path = input.target.path_and_query;
    let request = request_text(input.method, path);
    let fields = written_fields(input);
    let section_bytes = terminated(field_texts(fields)) + crlf();
    lemma_head_shape(input);
    lemma_target_bytes(
        path,
        0,
        if isolated {
            path.len() as int
        } else {
            path_end(path)
        },
    );
    lemma_request_reads(input.method, path, section_bytes);
    assert(head_bytes(input).skip(request.len() as int + 2) =~= section_bytes);
    lemma_written_readable(input, isolated);
    assert(section_bytes.len() == head_bytes(input).len() - request.len() - 2);
    lemma_section_reads(fields, 0);
    assert(field_texts(fields).take(0) =~= Seq::<Seq<u8>>::empty());
    assert(lowered_fields(fields.take(0)) =~= Seq::<FieldModel>::empty());
}

} // verus!
