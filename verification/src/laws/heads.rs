//! The head that goes upstream, byte by byte.

use vstd::prelude::*;
use crate::bytes::{ByteClass, all_in, any_in};
use crate::canonical_head::{
    FieldRule, HeadInput, closing_texts, constructed, crlf, effective_host, endpoint_text,
    field_rule, field_text, forwarding_texts, framing_texts, has_edge_ows, is_head_field,
    kept_texts, lemma_head_parts, lemma_part_bytes, lemma_terminated_push, lemma_two_lines,
    opening_texts, terminated, uppered,
};
use crate::decimal::digits_of;
use crate::ip::{is_ipv6_byte, lemma_ipv6_bytes};
use crate::laws::sections::{is_name, is_value};
use crate::text::{lemma_ascii_literal, utf8};
use crate::types::{AuthorityModel, BodyFraming, FieldModel};

verus! {

/// The lines of fields, each `name: value` with its line ending.
pub open spec fn field_lines(fields: Seq<FieldModel>) -> Seq<u8>
    decreases fields.len(),
{
    if fields.len() == 0 {
        Seq::empty()
    } else {
        field_lines(fields.drop_last()) + fields.last().name + seq![0x3au8, 0x20u8]
            + fields.last().value + seq![0x0du8, 0x0au8]
    }
}

/// The fields that go upstream as they are, those that are not named `host`, `content-length`,
/// `transfer-encoding`, `connection` or `forwarded`, nor with a name that begins with
/// `x-forwarded-`.
spec fn passed_on(fields: Seq<FieldModel>) -> Seq<FieldModel> {
    fields.filter(
        |field: FieldModel|
            field.name != utf8("host"@) && field.name != utf8("content-length"@) && field.name
                != utf8("transfer-encoding"@) && field.name != utf8("connection"@) && field.name
                != utf8("forwarded"@) && !(field.name.len() >= 12 && field.name.take(12) == utf8(
                "x-forwarded-"@,
            )),
    )
}

proof fn lemma_passed_on(fields: Seq<FieldModel>, rule: spec_fn(FieldModel) -> bool)
    requires
        forall|field: FieldModel| #[trigger]
            rule(field) == (field.name != utf8("host"@) && field.name != utf8("content-length"@)
                && field.name != utf8("transfer-encoding"@) && field.name != utf8("connection"@)
                && field.name != utf8("forwarded"@) && !(field.name.len() >= 12 && field.name.take(
                12,
            ) == utf8("x-forwarded-"@))),
    ensures
        passed_on(fields) == fields.filter(rule),
    decreases fields.len(),
{
    reveal(Seq::filter);
    if fields.len() > 0 {
        lemma_passed_on(fields.drop_last(), rule);
        assert(rule(fields.last()) == rule(fields.last()));
    }
}

proof fn lemma_prefix(name: Seq<u8>)
    ensures
        utf8("x-forwarded-"@).is_prefix_of(name) <==> name.len() >= 12 && name.take(12) == utf8(
            "x-forwarded-"@,
        ),
{
    reveal_strlit("x-forwarded-");
    lemma_ascii_literal("x-forwarded-"@);
    assert(utf8("x-forwarded-"@).len() == 12);
    if name.len() >= 12 {
        assert(name.take(12) =~= name.subrange(0, 12));
    }
}

proof fn lemma_kept_lines(fields: Seq<FieldModel>)
    requires
        forall|i: int|
            0 <= i < fields.len() ==> field_rule((#[trigger] fields[i]).name) != FieldRule::Reject,
    ensures
        terminated(kept_texts(fields)) == field_lines(passed_on(fields)),
    decreases fields.len(),
{
    reveal(Seq::filter);
    reveal_strlit(": ");
    lemma_ascii_literal(": "@);
    assert(utf8(": "@) =~= seq![0x3au8, 0x20u8]);
    if fields.len() > 0 {
        let shorter = fields.drop_last();
        let last = fields.last();
        assert forall|i: int| 0 <= i < shorter.len() implies field_rule(
            (#[trigger] shorter[i]).name,
        ) != FieldRule::Reject by {
            assert(shorter[i] == fields[i]);
        }
        lemma_kept_lines(shorter);
        lemma_prefix(last.name);
        assert(fields[fields.len() - 1] == last);
        if field_rule(last.name) == FieldRule::Keep {
            lemma_terminated_push(kept_texts(shorter), field_text(last.name, last.value));
            assert(passed_on(fields) =~= passed_on(shorter).push(last));
            assert(passed_on(fields).drop_last() =~= passed_on(shorter));
            assert(crlf() =~= seq![0x0du8, 0x0au8]);
            assert(terminated(kept_texts(fields)) =~= field_lines(passed_on(fields)));
        } else {
            assert(passed_on(fields) =~= passed_on(shorter));
        }
    } else {
        assert(passed_on(fields) =~= Seq::<FieldModel>::empty());
    }
}

/// A text in capitals.
pub open spec fn in_capitals(s: Seq<u8>) -> Seq<u8> {
    Seq::new(
        s.len(),
        |i: int|
            if 0x61 <= s[i] <= 0x7a {
                (s[i] - 0x20) as u8
            } else {
                s[i]
            },
    )
}

/// The Host value of an authority: an IPv6 address in brackets, any other host as it is, and the
/// port behind a colon.
pub open spec fn host_value_of(authority: AuthorityModel) -> Seq<u8> {
    let host = authority.host;
    let named = if host[0] != 0x5b && host.contains(0x3au8) {
        seq![0x5bu8] + host + seq![0x5du8]
    } else {
        host
    };
    match authority.port {
        None => named,
        Some(port) => named + seq![0x3au8] + digits_of(port as nat),
    }
}

proof fn lemma_host_value(authority: AuthorityModel)
    requires
        effective_host(authority) is Some,
    ensures
        endpoint_text(effective_host(authority).unwrap(), authority.port) == host_value_of(
            authority,
        ),
{
    let host = authority.host;
    let named = effective_host(authority).unwrap();
    if host.len() >= 2 && host[0] == '[' as u8 && host.last() == ']' as u8 {
        assert(seq![0x5bu8] + host.subrange(1, host.len() - 1) + seq![0x5du8] =~= host);
    } else if any_in(host, ByteClass::Only(':' as u8)) {
        let i = choose|i: int|
            0 <= i < host.len() && ByteClass::Only(':' as u8).has(#[trigger] host[i]);
        assert(host[i] == 0x3a);
        assert(host.contains(0x3au8));
        lemma_ipv6_bytes(host);
        assert(is_ipv6_byte(host[0]));
    } else {
        if host.contains(0x3au8) {
            let i = choose|i: int| 0 <= i < host.len() && host[i] == 0x3a;
            assert(ByteClass::Only(':' as u8).has(host[i]));
        }
    }
}

/// A head is, line by line: the method in capitals, the path and query and the version; the Host
/// of the authority; every field that is passed on, as it is and in its order; the four
/// forwarding fields; the framing that was decided, if there is a body; and that the connection
/// closes. An empty line ends it.
pub proof fn lemma_head_line_by_line(input: HeadInput, isolated: bool)
    ensures
        constructed(input, isolated) matches Ok(head) ==> {
            let colon = seq![0x3au8, 0x20u8];
            let end = seq![0x0du8, 0x0au8];
            let passed = input.headers.fields.filter(
                |field: FieldModel|
                    field.name != utf8("host"@) && field.name != utf8("content-length"@)
                        && field.name != utf8("transfer-encoding"@) && field.name != utf8(
                        "connection"@,
                    ) && field.name != utf8("forwarded"@) && !(field.name.len() >= 12
                        && field.name.take(12) == utf8("x-forwarded-"@)),
            );
            &&& head.body_framing == input.framing
            &&& head.bytes.len() <= 49152
            &&& head.bytes == in_capitals(input.method) + seq![0x20u8] + input.target.path_and_query
                + utf8(" HTTP/1.1"@) + end + (utf8("Host"@) + colon + host_value_of(input.authority)
                + end) + field_lines(passed) + (utf8("Forwarded"@) + colon
                + input.forwarding.forwarded + end) + (utf8("X-Forwarded-For"@) + colon
                + input.forwarding.x_forwarded_for + end) + (utf8("X-Forwarded-Proto"@) + colon
                + input.forwarding.x_forwarded_proto + end) + (utf8("X-Forwarded-Host"@) + colon
                + input.forwarding.x_forwarded_host + end) + match input.framing {
                BodyFraming::NoBody => Seq::<u8>::empty(),
                BodyFraming::ContentLength(length) => utf8("Content-Length"@) + colon + digits_of(
                    length as nat,
                ) + end,
                BodyFraming::Chunked => utf8("Transfer-Encoding"@) + colon + utf8("chunked"@) + end,
            } + (utf8("Connection"@) + colon + utf8("close"@) + end) + end
        },
{
    if constructed(input, isolated) is Ok {
        let fields = input.headers.fields;
        assert forall|i: int| 0 <= i < fields.len() implies field_rule((#[trigger] fields[i]).name)
            != FieldRule::Reject by {
            assert(is_head_field(fields[i]));
        }
        lemma_kept_lines(fields);
        let rule = |field: FieldModel|
            field.name != utf8("host"@) && field.name != utf8("content-length"@) && field.name
                != utf8("transfer-encoding"@) && field.name != utf8("connection"@) && field.name
                != utf8("forwarded"@) && !(field.name.len() >= 12 && field.name.take(12) == utf8(
                "x-forwarded-"@,
            ));
        lemma_passed_on(fields, rule);
        lemma_head_parts(input);
        lemma_part_bytes(input);
        lemma_opening_lines(input);
        lemma_forwarding_lines(input);
        lemma_framing_line(input);
        lemma_closing_line();
    }
}

proof fn lemma_separators()
    ensures
        utf8(": "@) == seq![0x3au8, 0x20u8],
        crlf() == seq![0x0du8, 0x0au8],
{
    reveal_strlit(": ");
    lemma_ascii_literal(": "@);
    assert(utf8(": "@) =~= seq![0x3au8, 0x20u8]);
    assert(crlf() =~= seq![0x0du8, 0x0au8]);
}

/// Grouping of bytes does not matter.
proof fn lemma_grouped(a: Seq<u8>, b: Seq<u8>, c: Seq<u8>)
    ensures
        a + (b + c) == a + b + c,
{
    assert(a + (b + c) =~= a + b + c);
}

proof fn lemma_opening_lines(input: HeadInput)
    requires
        effective_host(input.authority) is Some,
    ensures
        ({
            let colon = seq![0x3au8, 0x20u8];
            let end = seq![0x0du8, 0x0au8];
            terminated(opening_texts(input)) == in_capitals(input.method) + seq![0x20u8]
                + input.target.path_and_query + utf8(" HTTP/1.1"@) + end + (utf8("Host"@) + colon
                + host_value_of(input.authority) + end)
        }),
{
    let end = seq![0x0du8, 0x0au8];
    lemma_separators();
    lemma_part_bytes(input);
    lemma_host_value(input.authority);
    assert(uppered(input.method) =~= in_capitals(input.method));
    let request = in_capitals(input.method) + seq![0x20u8] + input.target.path_and_query + utf8(
        " HTTP/1.1"@,
    );
    let host = utf8("Host"@) + seq![0x3au8, 0x20u8] + host_value_of(input.authority);
    assert(opening_texts(input)[0] == request);
    assert(opening_texts(input)[1] == host);
    lemma_grouped(request + end, host, end);
}

proof fn lemma_forwarding_lines(input: HeadInput)
    ensures
        ({
            let colon = seq![0x3au8, 0x20u8];
            let end = seq![0x0du8, 0x0au8];
            forall|before: Seq<u8>| #[trigger]
                (before + terminated(forwarding_texts(input.forwarding))) == before + (utf8(
                    "Forwarded"@,
                ) + colon + input.forwarding.forwarded + end) + (utf8("X-Forwarded-For"@) + colon
                    + input.forwarding.x_forwarded_for + end) + (utf8("X-Forwarded-Proto"@) + colon
                    + input.forwarding.x_forwarded_proto + end) + (utf8("X-Forwarded-Host"@) + colon
                    + input.forwarding.x_forwarded_host + end)
        }),
{
    let colon = seq![0x3au8, 0x20u8];
    let end = seq![0x0du8, 0x0au8];
    lemma_separators();
    lemma_part_bytes(input);
    let texts = forwarding_texts(input.forwarding);
    let a = utf8("Forwarded"@) + colon + input.forwarding.forwarded;
    let b = utf8("X-Forwarded-For"@) + colon + input.forwarding.x_forwarded_for;
    let c = utf8("X-Forwarded-Proto"@) + colon + input.forwarding.x_forwarded_proto;
    let d = utf8("X-Forwarded-Host"@) + colon + input.forwarding.x_forwarded_host;
    assert(texts[0] == a && texts[1] == b && texts[2] == c && texts[3] == d);
    assert forall|before: Seq<u8>| #[trigger]
        (before + terminated(texts)) == before + (a + end) + (b + end) + (c + end) + (d + end) by {
        lemma_four_lines(before, a, b, c, d, end);
    }
}

proof fn lemma_four_lines(
    before: Seq<u8>,
    a: Seq<u8>,
    b: Seq<u8>,
    c: Seq<u8>,
    d: Seq<u8>,
    end: Seq<u8>,
)
    ensures
        before + (a + end + b + end + c + end + d + end) == before + (a + end) + (b + end) + (c
            + end) + (d + end),
{
    assert(before + (a + end + b + end + c + end + d + end) =~= before + (a + end) + (b + end) + (c
        + end) + (d + end));
}

proof fn lemma_framing_line(input: HeadInput)
    ensures
        ({
            let colon = seq![0x3au8, 0x20u8];
            let end = seq![0x0du8, 0x0au8];
            terminated(framing_texts(input.framing)) == match input.framing {
                BodyFraming::NoBody => Seq::<u8>::empty(),
                BodyFraming::ContentLength(length) => utf8("Content-Length"@) + colon + digits_of(
                    length as nat,
                ) + end,
                BodyFraming::Chunked => utf8("Transfer-Encoding"@) + colon + utf8("chunked"@) + end,
            }
        }),
{
    lemma_separators();
    lemma_part_bytes(input);
}

proof fn lemma_closing_line()
    ensures
        ({
            let colon = seq![0x3au8, 0x20u8];
            let end = seq![0x0du8, 0x0au8];
            forall|before: Seq<u8>| #[trigger]
                (before + terminated(closing_texts())) == before + (utf8("Connection"@) + colon
                    + utf8("close"@) + end) + end
        }),
{
    let colon = seq![0x3au8, 0x20u8];
    let end = seq![0x0du8, 0x0au8];
    lemma_separators();
    let line = utf8("Connection"@) + colon + utf8("close"@);
    let texts = closing_texts();
    lemma_two_lines(texts[0], texts[1]);
    assert(texts =~= seq![texts[0], texts[1]]);
    assert(texts[0] == line);
    assert(terminated(texts) =~= line + end + end);
    assert forall|before: Seq<u8>| #[trigger] (before + terminated(texts)) == before + (line + end)
        + end by {
        lemma_grouped(before, line + end, end);
    }
}

/// Which fields a head takes: names of one to 128 token bytes without capitals, other than the
/// seven that concern one connection only, with values of at most 8192 bytes that hold no control
/// byte but tabs and neither begin nor end with a space or a tab.
pub proof fn lemma_head_fields(field: FieldModel)
    ensures
        is_head_field(field) <==> {
            &&& is_name(field.name)
            &&& forall|i: int|
                0 <= i < field.name.len() ==> !(0x41 <= #[trigger] field.name[i] <= 0x5a)
            &&& is_value(field.value)
            &&& field.name != utf8("proxy-connection"@)
            &&& field.name != utf8("keep-alive"@)
            &&& field.name != utf8("te"@)
            &&& field.name != utf8("trailer"@)
            &&& field.name != utf8("upgrade"@)
            &&& field.name != utf8("proxy-authenticate"@)
            &&& field.name != utf8("proxy-authorization"@)
        },
{
    let name = field.name;
    let value = field.value;
    lemma_prefix(name);
    lemma_seven_kept_apart();
    assert(is_name(name) <==> 1 <= name.len() <= 128 && all_in(name, ByteClass::Token)) by {
        if is_name(name) {
            assert forall|i: int| 0 <= i < name.len() implies ByteClass::Token.has(
                #[trigger] name[i],
            ) by {}
        }
        if all_in(name, ByteClass::Token) && 1 <= name.len() <= 128 {
            assert forall|i: int| 0 <= i < name.len() implies ByteClass::Token.has(
                #[trigger] name[i],
            ) by {}
            assert(is_name(name));
        }
    }
    assert(any_in(name, ByteClass::Upper) <==> !forall|i: int|
        0 <= i < name.len() ==> !(0x41 <= #[trigger] name[i] <= 0x5a)) by {
        if any_in(name, ByteClass::Upper) {
            let i = choose|i: int| 0 <= i < name.len() && ByteClass::Upper.has(#[trigger] name[i]);
            assert(0x41 <= name[i] <= 0x5a);
        }
        if !forall|i: int| 0 <= i < name.len() ==> !(0x41 <= #[trigger] name[i] <= 0x5a) {
            let i = choose|i: int| 0 <= i < name.len() && (0x41 <= #[trigger] name[i] <= 0x5a);
            assert(ByteClass::Upper.has(name[i]));
        }
    }
    assert(is_value(value) <==> value.len() <= 8192 && all_in(value, ByteClass::Field)
        && !has_edge_ows(value)) by {
        if is_value(value) {
            assert forall|i: int| 0 <= i < value.len() implies ByteClass::Field.has(
                #[trigger] value[i],
            ) by {}
        }
        if all_in(value, ByteClass::Field) {
            assert forall|i: int| 0 <= i < value.len() implies #[trigger] value[i] == 0x09 || 0x20
                <= value[i] <= 0x7e || 0x80 <= value[i] by {
                assert(ByteClass::Field.has(value[i]));
            }
        }
    }
}

/// The seven names of one connection are none of those that the head writes anew.
proof fn lemma_seven_kept_apart()
    ensures
        field_rule(utf8("proxy-connection"@)) == FieldRule::Reject,
        field_rule(utf8("keep-alive"@)) == FieldRule::Reject,
        field_rule(utf8("te"@)) == FieldRule::Reject,
        field_rule(utf8("trailer"@)) == FieldRule::Reject,
        field_rule(utf8("upgrade"@)) == FieldRule::Reject,
        field_rule(utf8("proxy-authenticate"@)) == FieldRule::Reject,
        field_rule(utf8("proxy-authorization"@)) == FieldRule::Reject,
{
    reveal_strlit("proxy-connection");
    reveal_strlit("keep-alive");
    reveal_strlit("te");
    reveal_strlit("trailer");
    reveal_strlit("upgrade");
    reveal_strlit("proxy-authenticate");
    reveal_strlit("proxy-authorization");
    reveal_strlit("host");
    reveal_strlit("content-length");
    reveal_strlit("transfer-encoding");
    reveal_strlit("connection");
    reveal_strlit("forwarded");
    reveal_strlit("x-forwarded-");
    lemma_ascii_literal("proxy-connection"@);
    lemma_ascii_literal("keep-alive"@);
    lemma_ascii_literal("te"@);
    lemma_ascii_literal("trailer"@);
    lemma_ascii_literal("upgrade"@);
    lemma_ascii_literal("proxy-authenticate"@);
    lemma_ascii_literal("proxy-authorization"@);
    lemma_ascii_literal("host"@);
    lemma_ascii_literal("content-length"@);
    lemma_ascii_literal("transfer-encoding"@);
    lemma_ascii_literal("connection"@);
    lemma_ascii_literal("forwarded"@);
    lemma_ascii_literal("x-forwarded-"@);
    lemma_prefix(utf8("proxy-connection"@));
    lemma_prefix(utf8("keep-alive"@));
    lemma_prefix(utf8("te"@));
    lemma_prefix(utf8("trailer"@));
    lemma_prefix(utf8("upgrade"@));
    lemma_prefix(utf8("proxy-authenticate"@));
    lemma_prefix(utf8("proxy-authorization"@));
    assert(utf8("host"@)[0] == 0x68 && utf8("content-length"@)[0] == 0x63 && utf8("connection"@)[0]
        == 0x63 && utf8("forwarded"@)[0] == 0x66 && utf8("x-forwarded-"@)[0] == 0x78);
    assert(utf8("transfer-encoding"@).len() == 17);
    assert(utf8("proxy-connection"@)[0] == 0x70 && utf8("proxy-connection"@).take(12)[0] == 0x70);
    assert(utf8("proxy-authenticate"@)[0] == 0x70 && utf8("proxy-authenticate"@).take(12)[0]
        == 0x70);
    assert(utf8("proxy-authorization"@)[0] == 0x70 && utf8("proxy-authorization"@).take(12)[0]
        == 0x70);
    assert(utf8("keep-alive"@)[0] == 0x6b);
    assert(utf8("te"@)[0] == 0x74 && utf8("trailer"@)[0] == 0x74);
    assert(utf8("upgrade"@)[0] == 0x75);
}

} // verus!
