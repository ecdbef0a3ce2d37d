//! Serializing the head of an upstream request.

use vstd::prelude::*;
use crate::body_framing::CONTENT_LENGTH_LIMIT;
use crate::bytes::{
    ByteClass, all_bytes_in, all_in, any_byte_in, any_in, comes_before, find_in, first_in,
    is_control, is_lower, is_ows, is_visible, lemma_first_in, lemma_precedes_transitive, precedes,
};
use crate::decimal::{digits_of, lemma_digits_of, render_decimal};
use crate::forwarding::{FORWARDING_VALUE_LIMIT, is_blank, is_list, is_list_value};
use crate::header::{FIELD_MAX, NAME_MAX, VALUE_MAX};
use crate::hex::hex_digit_value;
use crate::host::{is_dns, is_dns_name, lemma_dns_name_bytes, parse_port_number, port_number};
use crate::ip::{is_ipv6, is_ipv6_byte, is_ipv6_text, lemma_ipv6_bytes, lemma_ipv6_length};
use crate::names::strictly_sorted;
use crate::request_line::MAX_METHOD_BYTES;
use crate::request_target::{TARGET_MAX, path_end};
use crate::route::{decoded_byte, has_dot_segment, has_dots, is_unreserved, is_upper_hex};
use crate::text::{append, lemma_ascii_literal, same_bytes, same_text, starts_with, utf8};
use crate::types::{
    AuthorityModel, BodyFraming, EffectiveAuthority, Fault, FieldModel, ForwardingModel,
    ForwardingResult, HeadModel, HeaderField, NormalizedTarget, SanitizedModel, TargetForm,
    TargetModel, Verdict, texts_of, utf8_opt,
};

verus! {

/// The greatest length of a serialized head.
pub const HEAD_LIMIT: usize = 49_152;

/// What a head is made of.
pub struct HeadInput {
    pub method: Seq<u8>,
    pub target: TargetModel,
    pub authority: AuthorityModel,
    pub headers: SanitizedModel,
    pub framing: BodyFraming,
    pub forwarding: ForwardingModel,
}

/// What becomes of a field that a sanitized request still has.
#[derive(Clone, Copy, PartialEq, Eq, Structural)]
pub enum FieldRule {
    /// It is passed on.
    Keep,
    /// It is left out: the head has its own.
    Replace,
    /// It should not be there any more.
    Reject,
}

pub open spec fn field_rule(name: Seq<u8>) -> FieldRule {
    if utf8("x-forwarded-"@).is_prefix_of(name) || name == utf8("host"@) || name == utf8(
        "content-length"@,
    ) || name == utf8("transfer-encoding"@) || name == utf8("connection"@) || name == utf8(
        "forwarded"@,
    ) {
        FieldRule::Replace
    } else if name == utf8("proxy-connection"@) || name == utf8("keep-alive"@) || name == utf8(
        "te"@,
    ) || name == utf8("trailer"@) || name == utf8("upgrade"@) || name == utf8(
        "proxy-authenticate"@,
    ) || name == utf8("proxy-authorization"@) {
        FieldRule::Reject
    } else {
        FieldRule::Keep
    }
}

/// A token without upper-case letters.
pub open spec fn is_lower_token(s: Seq<u8>, limit: int) -> bool {
    1 <= s.len() <= limit && all_in(s, ByteClass::Token) && !any_in(s, ByteClass::Upper)
}

/// Whether a value begins or ends with optional whitespace.
pub open spec fn has_edge_ows(value: Seq<u8>) -> bool {
    value.len() > 0 && (is_ows(value[0]) || is_ows(value.last()))
}

pub open spec fn is_head_field(field: FieldModel) -> bool {
    &&& is_lower_token(field.name, NAME_MAX as int)
    &&& field.value.len() <= VALUE_MAX
    &&& all_in(field.value, ByteClass::Field)
    &&& !has_edge_ows(field.value)
    &&& field_rule(field.name) != FieldRule::Reject
}

pub open spec fn are_head_fields(headers: SanitizedModel) -> bool {
    &&& headers.fields.len() <= FIELD_MAX
    &&& forall|i: int|
        0 <= i < headers.fields.len() ==> is_head_field(#[trigger] headers.fields[i])
    &&& forall|i: int|
        0 <= i < headers.removed_names.len() ==> is_lower_token(
            #[trigger] headers.removed_names[i],
            NAME_MAX as int,
        )
    &&& strictly_sorted(headers.removed_names)
}

pub open spec fn is_wire_ipv6(s: Seq<u8>) -> bool {
    is_ipv6(s) && !any_in(s, ByteClass::Upper)
}

pub open spec fn is_wire_dns(s: Seq<u8>) -> bool {
    is_dns_name(s) && !any_in(s, ByteClass::Upper)
}

/// A host as it is serialized; an IPv6 address stands in brackets there.
#[verifier::ext_equal]
pub struct HostModel {
    pub text: Seq<u8>,
    pub is_v6: bool,
}

/// The host that a text names: a DNS name or an IPv6 address, with or without brackets, all in
/// lower case.
pub open spec fn wire_host(host: Seq<u8>) -> Option<HostModel> {
    if host.len() >= 2 && host[0] == '[' as u8 && host.last() == ']' as u8 {
        let inner = host.subrange(1, host.len() - 1);
        if is_wire_ipv6(inner) {
            Some(HostModel { text: inner, is_v6: true })
        } else {
            None
        }
    } else if any_in(host, ByteClass::Only(':' as u8)) {
        if is_wire_ipv6(host) {
            Some(HostModel { text: host, is_v6: true })
        } else {
            None
        }
    } else if is_wire_dns(host) {
        Some(HostModel { text: host, is_v6: false })
    } else {
        None
    }
}

/// The host of the effective authority, whose port is not zero.
pub open spec fn effective_host(authority: AuthorityModel) -> Option<HostModel> {
    if authority.port == Some(0u16) {
        None
    } else {
        wire_host(authority.host)
    }
}

/// The port that a text declares; where `signed`, a plus sign may precede the digits.
pub open spec fn declared_port(s: Seq<u8>, signed: bool) -> Option<u16> {
    if signed && s.len() > 0 && s[0] == '+' as u8 {
        port_number(s.skip(1))
    } else {
        port_number(s)
    }
}

/// The host and the port of a target's authority, all in lower case.
pub open spec fn target_endpoint(raw: Seq<u8>, signed: bool) -> Option<(HostModel, Option<u16>)> {
    if raw.len() > 0 && raw[0] == '[' as u8 {
        let close = first_in(raw, ByteClass::Only(']' as u8));
        let rest = raw.skip(close + 1);
        if close >= raw.len() || !is_wire_ipv6(raw.subrange(1, close)) {
            None
        } else if rest.len() == 0 {
            Some((HostModel { text: raw.subrange(1, close), is_v6: true }, None))
        } else if rest[0] == ':' as u8 && declared_port(rest.skip(1), signed) is Some {
            Some(
                (
                    HostModel { text: raw.subrange(1, close), is_v6: true },
                    declared_port(rest.skip(1), signed),
                ),
            )
        } else {
            None
        }
    } else {
        let colon = first_in(raw, ByteClass::Only(':' as u8));
        let host = raw.take(colon);
        if !is_wire_dns(host) {
            None
        } else if colon >= raw.len() {
            Some((HostModel { text: host, is_v6: false }, None))
        } else if declared_port(raw.skip(colon + 1), signed) is Some {
            Some(
                (
                    HostModel { text: host, is_v6: false },
                    declared_port(raw.skip(colon + 1), signed),
                ),
            )
        } else {
            None
        }
    }
}

pub open spec fn default_port(scheme: Option<Seq<u8>>) -> Option<u16> {
    if scheme == Some(utf8("http"@)) {
        Some(80u16)
    } else if scheme == Some(utf8("https"@)) {
        Some(443u16)
    } else {
        None
    }
}

pub open spec fn port_or(port: Option<u16>, otherwise: u16) -> u16 {
    match port {
        Some(port) => port,
        None => otherwise,
    }
}

/// Whether the form of a target fits, and its authority the effective one. A boundary that is
/// `isolated` looks at each part by itself.
pub open spec fn form_fits(target: TargetModel, authority: AuthorityModel, isolated: bool) -> bool {
    match target.form {
        TargetForm::Origin => target.scheme is None && target.authority is None,
        TargetForm::Absolute => match (default_port(target.scheme), target.authority) {
            (Some(default), Some(raw)) => match target_endpoint(raw, isolated) {
                Some((host, port)) => isolated || {
                    &&& authority.port != Some(default)
                    &&& effective_host(authority) == Some(host)
                    &&& port_or(port, default) == port_or(authority.port, default)
                },
                None => false,
            },
            _ => false,
        },
        _ => false,
    }
}

/// Whether the escape at `i` is in canonical form: upper-case digits for a byte that has to be
/// escaped; before `upto` also for none that separates segments.
pub open spec fn is_wire_escape(s: Seq<u8>, i: int, upto: int) -> bool {
    &&& i + 2 < s.len()
    &&& is_upper_hex(s[i + 1])
    &&& is_upper_hex(s[i + 2])
    &&& !is_control(decoded_byte(s[i + 1], s[i + 2]))
    &&& !is_unreserved(decoded_byte(s[i + 1], s[i + 2]))
    &&& i < upto ==> decoded_byte(s[i + 1], s[i + 2]) != '/' as u8 && decoded_byte(
        s[i + 1],
        s[i + 2],
    ) != '\\' as u8
}

#[verifier::allow_in_spec]
pub fn is_target_byte(b: u8) -> bool
    returns
        is_visible(b) && b != '#' as u8 && b != '\\' as u8,
{
    is_visible(b) && b != '#' as u8 && b != '\\' as u8
}

/// Whether the target from `i` on is made of target bytes and canonical escapes.
pub open spec fn is_wire_target(s: Seq<u8>, i: int, upto: int) -> bool
    decreases s.len() - i,
{
    if i >= s.len() {
        true
    } else if s[i] == '%' as u8 {
        is_wire_escape(s, i, upto) && is_wire_target(s, i + 3, upto)
    } else {
        is_target_byte(s[i]) && is_wire_target(s, i + 1, upto)
    }
}

pub open spec fn path_fits(target: TargetModel, isolated: bool) -> bool {
    let value = target.path_and_query;
    let end = path_end(value);
    &&& 1 <= value.len() <= TARGET_MAX
    &&& value[0] == '/' as u8
    &&& target.routing_path == value.take(end)
    &&& is_wire_target(
        value,
        0,
        if isolated {
            value.len() as int
        } else {
            end
        },
    )
    &&& !has_dot_segment(target.routing_path)
}

/// Where a reader of quoted strings is.
#[derive(Clone, Copy, PartialEq, Eq, Structural)]
pub enum QuoteState {
    Outside,
    Inside,
    AfterBackslash,
}

#[verifier::allow_in_spec]
pub fn after_byte(state: QuoteState, b: u8) -> QuoteState
    returns
        match state {
            QuoteState::AfterBackslash => QuoteState::Inside,
            QuoteState::Inside => if b == '\\' as u8 {
                QuoteState::AfterBackslash
            } else if b == '"' as u8 {
                QuoteState::Outside
            } else {
                QuoteState::Inside
            },
            QuoteState::Outside => if b == '"' as u8 {
                QuoteState::Inside
            } else {
                QuoteState::Outside
            },
        },
{
    match state {
        QuoteState::AfterBackslash => QuoteState::Inside,
        QuoteState::Inside => if b == '\\' as u8 {
            QuoteState::AfterBackslash
        } else if b == '"' as u8 {
            QuoteState::Outside
        } else {
            QuoteState::Inside
        },
        QuoteState::Outside => if b == '"' as u8 {
            QuoteState::Inside
        } else {
            QuoteState::Outside
        },
    }
}

/// Where the reader is before the byte at `i`.
pub open spec fn quote_state(s: Seq<u8>, i: int) -> QuoteState
    decreases i,
{
    if i <= 0 {
        QuoteState::Outside
    } else {
        after_byte(quote_state(s, i - 1), s[i - 1])
    }
}

/// Whether a list member begins or ends at `i`: the ends of the text, and the commas outside of
/// quoted strings.
pub open spec fn is_member_edge(s: Seq<u8>, i: int) -> bool {
    i == -1 || i == s.len() || (0 <= i < s.len() && s[i] == ',' as u8 && quote_state(s, i)
        == QuoteState::Outside)
}

/// Whether every quoted string is closed and no list member is blank.
pub open spec fn is_quoted_list(s: Seq<u8>) -> bool {
    &&& quote_state(s, s.len() as int) == QuoteState::Outside
    &&& forall|i: int, j: int|
        #![trigger is_member_edge(s, i), is_member_edge(s, j)]
        i < j && is_member_edge(s, i) && is_member_edge(s, j) ==> !is_blank(s.subrange(i + 1, j))
}

/// Whether a forwarding value can be serialized. An isolated boundary understands quoted strings.
pub open spec fn is_wire_value(value: Seq<u8>, isolated: bool) -> bool {
    &&& 1 <= value.len() <= FORWARDING_VALUE_LIMIT
    &&& all_in(value, ByteClass::Printable)
    &&& value[0] != ' ' as u8
    &&& value.last() != ' ' as u8
    &&& if isolated {
        is_quoted_list(value)
    } else {
        is_list(value)
    }
}

pub open spec fn are_wire_values(forwarding: ForwardingModel, isolated: bool) -> bool {
    &&& is_wire_value(forwarding.forwarded, isolated)
    &&& is_wire_value(forwarding.x_forwarded_for, isolated)
    &&& is_wire_value(forwarding.x_forwarded_proto, isolated)
    &&& is_wire_value(forwarding.x_forwarded_host, isolated)
}

pub open spec fn framing_fits(framing: BodyFraming) -> bool {
    framing matches BodyFraming::ContentLength(length) ==> length <= CONTENT_LENGTH_LIMIT
}

/// Whether a head can be serialized.
pub open spec fn is_head(input: HeadInput, isolated: bool) -> bool {
    &&& is_lower_token(input.method, MAX_METHOD_BYTES as int)
    &&& form_fits(input.target, input.authority, isolated)
    &&& path_fits(input.target, isolated)
    &&& effective_host(input.authority) is Some
    &&& are_head_fields(input.headers)
    &&& framing_fits(input.framing)
    &&& are_wire_values(input.forwarding, isolated)
}

#[verifier::allow_in_spec]
pub fn to_upper(b: u8) -> u8
    returns
        if is_lower(b) {
            (b - 32) as u8
        } else {
            b
        },
{
    if is_lower(b) {
        b - 32
    } else {
        b
    }
}

pub open spec fn uppered(s: Seq<u8>) -> Seq<u8> {
    s.map_values(|b: u8| to_upper(b))
}

pub open spec fn request_text(method: Seq<u8>, path_and_query: Seq<u8>) -> Seq<u8> {
    uppered(method) + seq![' ' as u8] + path_and_query + utf8(" HTTP/1.1"@)
}

/// A host and a port as they are serialized.
pub open spec fn endpoint_text(host: HostModel, port: Option<u16>) -> Seq<u8> {
    let text = if host.is_v6 {
        seq!['[' as u8] + host.text + seq![']' as u8]
    } else {
        host.text
    };
    match port {
        Some(port) => text + seq![':' as u8] + digits_of(port as nat),
        None => text,
    }
}

pub open spec fn field_text(name: Seq<u8>, value: Seq<u8>) -> Seq<u8> {
    name + utf8(": "@) + value
}

/// The lines of the fields that are passed on.
pub open spec fn kept_texts(fields: Seq<FieldModel>) -> Seq<Seq<u8>>
    decreases fields.len(),
{
    if fields.len() == 0 {
        Seq::empty()
    } else if field_rule(fields.last().name) == FieldRule::Keep {
        kept_texts(fields.drop_last()).push(field_text(fields.last().name, fields.last().value))
    } else {
        kept_texts(fields.drop_last())
    }
}

pub open spec fn forwarding_texts(forwarding: ForwardingModel) -> Seq<Seq<u8>> {
    seq![
        field_text(utf8("Forwarded"@), forwarding.forwarded),
        field_text(utf8("X-Forwarded-For"@), forwarding.x_forwarded_for),
        field_text(utf8("X-Forwarded-Proto"@), forwarding.x_forwarded_proto),
        field_text(utf8("X-Forwarded-Host"@), forwarding.x_forwarded_host),
    ]
}

pub open spec fn framing_texts(framing: BodyFraming) -> Seq<Seq<u8>> {
    match framing {
        BodyFraming::NoBody => Seq::empty(),
        BodyFraming::ContentLength(length) => seq![
            field_text(utf8("Content-Length"@), digits_of(length as nat)),
        ],
        BodyFraming::Chunked => seq![field_text(utf8("Transfer-Encoding"@), utf8("chunked"@))],
    }
}

/// The lines at the end of every head, of which the last is empty.
pub open spec fn closing_texts() -> Seq<Seq<u8>> {
    seq![field_text(utf8("Connection"@), utf8("close"@)), Seq::empty()]
}

pub open spec fn opening_texts(input: HeadInput) -> Seq<Seq<u8>> {
    seq![
        request_text(input.method, input.target.path_and_query),
        field_text(
            utf8("Host"@),
            endpoint_text(effective_host(input.authority).unwrap(), input.authority.port),
        ),
    ]
}

/// The lines of a head, in order.
pub open spec fn head_texts(input: HeadInput) -> Seq<Seq<u8>> {
    opening_texts(input) + kept_texts(input.headers.fields) + forwarding_texts(input.forwarding)
        + framing_texts(input.framing) + closing_texts()
}

pub open spec fn crlf() -> Seq<u8> {
    seq!['\r' as u8, '\n' as u8]
}

/// Lines, each with the line break after it.
pub open spec fn terminated(texts: Seq<Seq<u8>>) -> Seq<u8>
    decreases texts.len(),
{
    if texts.len() == 0 {
        Seq::empty()
    } else {
        terminated(texts.drop_last()) + texts.last() + crlf()
    }
}

pub open spec fn head_bytes(input: HeadInput) -> Seq<u8> {
    terminated(head_texts(input))
}

pub open spec fn head_too_long(actual: int) -> Fault {
    Fault::LimitExceeded { limit: "canonical_head_bytes"@, max: HEAD_LIMIT as int, actual }
}

/// The serialized head.
pub open spec fn constructed(input: HeadInput, isolated: bool) -> Verdict<HeadModel> {
    if !is_head(input, isolated) {
        Err(Fault::SerializationInvariant)
    } else if head_bytes(input).len() > HEAD_LIMIT {
        Err(head_too_long(head_bytes(input).len() as int))
    } else {
        Ok(HeadModel { bytes: head_bytes(input), body_framing: input.framing })
    }
}

/// Lines one after the other: their bytes are one after the other.
pub proof fn lemma_terminated_concat(a: Seq<Seq<u8>>, b: Seq<Seq<u8>>)
    ensures
        terminated(a + b) == terminated(a) + terminated(b),
    decreases b.len(),
{
    if b.len() == 0 {
        assert(a + b =~= a);
        assert(terminated(a) + terminated(b) =~= terminated(a));
    } else {
        lemma_terminated_concat(a, b.drop_last());
        assert((a + b).drop_last() =~= a + b.drop_last());
        assert((a + b).last() == b.last());
        assert(terminated(a + b) =~= terminated(a) + terminated(b));
    }
}

/// One more line.
pub proof fn lemma_terminated_push(texts: Seq<Seq<u8>>, text: Seq<u8>)
    ensures
        terminated(texts.push(text)) == terminated(texts) + text + crlf(),
{
    assert(texts.push(text).drop_last() =~= texts);
}

/// The bytes of the parts of a head are one after the other.
pub proof fn lemma_head_parts(input: HeadInput)
    ensures
        head_bytes(input) == terminated(opening_texts(input)) + terminated(
            kept_texts(input.headers.fields),
        ) + terminated(forwarding_texts(input.forwarding)) + terminated(
            framing_texts(input.framing),
        ) + terminated(closing_texts()),
{
    let a = opening_texts(input);
    let b = a + kept_texts(input.headers.fields);
    let c = b + forwarding_texts(input.forwarding);
    let d = c + framing_texts(input.framing);
    lemma_terminated_concat(a, kept_texts(input.headers.fields));
    lemma_terminated_concat(b, forwarding_texts(input.forwarding));
    lemma_terminated_concat(c, framing_texts(input.framing));
    lemma_terminated_concat(d, closing_texts());
}

proof fn lemma_head_literals()
    ensures
        utf8("Forwarded"@).len() == 9,
        utf8("X-Forwarded-For"@).len() == 15,
        utf8("X-Forwarded-Proto"@).len() == 17,
        utf8("X-Forwarded-Host"@).len() == 16,
        utf8("Content-Length"@).len() == 14,
        utf8("Transfer-Encoding"@).len() == 17,
        utf8("chunked"@).len() == 7,
        utf8("Connection"@).len() == 10,
        utf8("close"@).len() == 5,
        utf8("Host"@).len() == 4,
        utf8(": "@).len() == 2,
        utf8(" HTTP/1.1"@).len() == 9,
        unbroken(utf8("Forwarded"@)),
        unbroken(utf8("X-Forwarded-For"@)),
        unbroken(utf8("X-Forwarded-Proto"@)),
        unbroken(utf8("X-Forwarded-Host"@)),
        unbroken(utf8("Content-Length"@)),
        unbroken(utf8("Transfer-Encoding"@)),
        unbroken(utf8("chunked"@)),
        unbroken(utf8("Connection"@)),
        unbroken(utf8("close"@)),
        unbroken(utf8("Host"@)),
        unbroken(utf8(": "@)),
        unbroken(utf8(" HTTP/1.1"@)),
{
    reveal_strlit("Forwarded");
    reveal_strlit("X-Forwarded-For");
    reveal_strlit("X-Forwarded-Proto");
    reveal_strlit("X-Forwarded-Host");
    reveal_strlit("Content-Length");
    reveal_strlit("Transfer-Encoding");
    reveal_strlit("chunked");
    reveal_strlit("Connection");
    reveal_strlit("close");
    reveal_strlit("Host");
    reveal_strlit(": ");
    reveal_strlit(" HTTP/1.1");
    lemma_ascii_literal("Forwarded"@);
    lemma_ascii_literal("X-Forwarded-For"@);
    lemma_ascii_literal("X-Forwarded-Proto"@);
    lemma_ascii_literal("X-Forwarded-Host"@);
    lemma_ascii_literal("Content-Length"@);
    lemma_ascii_literal("Transfer-Encoding"@);
    lemma_ascii_literal("chunked"@);
    lemma_ascii_literal("Connection"@);
    lemma_ascii_literal("close"@);
    lemma_ascii_literal("Host"@);
    lemma_ascii_literal(": "@);
    lemma_ascii_literal(" HTTP/1.1"@);
}

/// How long the fixed texts of a head are.
pub proof fn lemma_fixed_lengths()
    ensures
        utf8("Forwarded"@).len() == 9,
        utf8("X-Forwarded-For"@).len() == 15,
        utf8("X-Forwarded-Proto"@).len() == 17,
        utf8("X-Forwarded-Host"@).len() == 16,
        utf8("Content-Length"@).len() == 14,
        utf8("Transfer-Encoding"@).len() == 17,
        utf8("chunked"@).len() == 7,
        utf8("Connection"@).len() == 10,
        utf8("close"@).len() == 5,
        utf8("Host"@).len() == 4,
        utf8(": "@).len() == 2,
        utf8(" HTTP/1.1"@).len() == 9,
{
    lemma_head_literals();
}

/// Whether a text has no byte of a line break in it.
pub open spec fn unbroken(s: Seq<u8>) -> bool {
    forall|i: int| 0 <= i < s.len() ==> #[trigger] s[i] != '\r' as u8 && s[i] != '\n' as u8
}

proof fn lemma_unbroken_class(s: Seq<u8>, class: ByteClass)
    requires
        all_in(s, class),
        !class.has('\r' as u8),
        !class.has('\n' as u8),
    ensures
        unbroken(s),
{
    assert forall|i: int| 0 <= i < s.len() implies #[trigger] s[i] != '\r' as u8 && s[i]
        != '\n' as u8 by {
        assert(class.has(s[i]));
    }
}

proof fn lemma_unbroken_concat(a: Seq<u8>, b: Seq<u8>)
    requires
        unbroken(a),
        unbroken(b),
    ensures
        unbroken(a + b),
{
}

proof fn lemma_wire_target_unbroken(s: Seq<u8>, i: int, upto: int)
    requires
        0 <= i,
        is_wire_target(s, i, upto),
    ensures
        forall|j: int| i <= j < s.len() ==> #[trigger] s[j] != '\r' as u8 && s[j] != '\n' as u8,
    decreases s.len() - i,
{
    if i < s.len() {
        if s[i] == '%' as u8 {
            lemma_wire_target_unbroken(s, i + 3, upto);
            assert(is_upper_hex(s[i + 1]) && is_upper_hex(s[i + 2]));
        } else {
            lemma_wire_target_unbroken(s, i + 1, upto);
        }
    }
}

proof fn lemma_host_unbroken(host: Seq<u8>)
    requires
        wire_host(host) is Some,
    ensures
        unbroken(wire_host(host).unwrap().text),
        wire_host(host).unwrap().text.len() < 300,
        wire_host(host).unwrap().text.len() > 0,
{
    let text = wire_host(host).unwrap().text;
    if wire_host(host).unwrap().is_v6 {
        lemma_ipv6_length(text);
        lemma_ipv6_bytes(text);
        assert forall|i: int| 0 <= i < text.len() implies #[trigger] text[i] != '\r' as u8 && text[i]
            != '\n' as u8 by {
            assert(is_ipv6_byte(text[i]));
        }
    } else {
        lemma_dns_name_bytes(text);
        assert forall|i: int| 0 <= i < text.len() implies #[trigger] text[i] != '\r' as u8 && text[i]
            != '\n' as u8 by {
            assert(ByteClass::Label.has(text[i]) || text[i] == '.' as u8);
        }
    }
}

proof fn lemma_field_text_unbroken(name: Seq<u8>, value: Seq<u8>)
    requires
        unbroken(name),
        unbroken(value),
    ensures
        unbroken(field_text(name, value)),
{
    lemma_head_literals();
    lemma_unbroken_concat(name, utf8(": "@));
    lemma_unbroken_concat(name + utf8(": "@), value);
}

proof fn lemma_kept_texts_unbroken(fields: Seq<FieldModel>)
    requires
        forall|i: int| 0 <= i < fields.len() ==> is_head_field(#[trigger] fields[i]),
    ensures
        forall|k: int|
            0 <= k < kept_texts(fields).len() ==> unbroken(#[trigger] kept_texts(fields)[k])
                && kept_texts(fields)[k].len() > 0,
    decreases fields.len(),
{
    if fields.len() > 0 {
        let field = fields.last();
        assert forall|i: int| 0 <= i < fields.drop_last().len() implies is_head_field(
            #[trigger] fields.drop_last()[i],
        ) by {
            assert(is_head_field(fields[i]));
        }
        lemma_kept_texts_unbroken(fields.drop_last());
        assert(is_head_field(fields[fields.len() - 1]));
        lemma_unbroken_class(field.name, ByteClass::Token);
        lemma_unbroken_class(field.value, ByteClass::Field);
        lemma_field_text_unbroken(field.name, field.value);
        let shorter = kept_texts(fields.drop_last());
        let all = kept_texts(fields);
        assert forall|k: int| 0 <= k < all.len() implies unbroken(#[trigger] all[k])
            && all[k].len() > 0 by {
            if k < shorter.len() {
                assert(all[k] == shorter[k]);
            }
        }
    }
}

proof fn lemma_opening_unbroken(input: HeadInput, isolated: bool)
    requires
        is_head(input, isolated),
    ensures
        unbroken(opening_texts(input)[0]),
        unbroken(opening_texts(input)[1]),
        opening_texts(input)[0].len() > 0,
        opening_texts(input)[1].len() > 0,
{
    lemma_head_literals();
    let path = input.target.path_and_query;
    let upper = uppered(input.method);
    assert forall|i: int| 0 <= i < upper.len() implies #[trigger] upper[i] != '\r' as u8 && upper[i]
        != '\n' as u8 by {
        assert(ByteClass::Token.has(input.method[i]));
    }
    lemma_wire_target_unbroken(
        path,
        0,
        if isolated {
            path.len() as int
        } else {
            path_end(path)
        },
    );
    lemma_unbroken_concat(upper, seq![' ' as u8]);
    lemma_unbroken_concat(upper + seq![' ' as u8], path);
    lemma_unbroken_concat(upper + seq![' ' as u8] + path, utf8(" HTTP/1.1"@));
    let host = effective_host(input.authority).unwrap();
    lemma_host_unbroken(input.authority.host);
    let bracketed = seq!['[' as u8] + host.text + seq![']' as u8];
    lemma_unbroken_concat(seq!['[' as u8], host.text);
    lemma_unbroken_concat(seq!['[' as u8] + host.text, seq![']' as u8]);
    if let Some(port) = input.authority.port {
        let text = if host.is_v6 {
            bracketed
        } else {
            host.text
        };
        lemma_digits_of(port as nat);
        lemma_unbroken_class(digits_of(port as nat), ByteClass::Digit);
        lemma_unbroken_concat(text, seq![':' as u8]);
        lemma_unbroken_concat(text + seq![':' as u8], digits_of(port as nat));
    }
    lemma_field_text_unbroken(utf8("Host"@), endpoint_text(host, input.authority.port));
}

proof fn lemma_forwarding_unbroken(forwarding: ForwardingModel, isolated: bool)
    requires
        are_wire_values(forwarding, isolated),
    ensures
        forall|k: int|
            0 <= k < 4 ==> unbroken(#[trigger] forwarding_texts(forwarding)[k]) && forwarding_texts(
                forwarding,
            )[k].len() > 0,
{
    lemma_head_literals();
    lemma_unbroken_class(forwarding.forwarded, ByteClass::Printable);
    lemma_unbroken_class(forwarding.x_forwarded_for, ByteClass::Printable);
    lemma_unbroken_class(forwarding.x_forwarded_proto, ByteClass::Printable);
    lemma_unbroken_class(forwarding.x_forwarded_host, ByteClass::Printable);
    lemma_field_text_unbroken(utf8("Forwarded"@), forwarding.forwarded);
    lemma_field_text_unbroken(utf8("X-Forwarded-For"@), forwarding.x_forwarded_for);
    lemma_field_text_unbroken(utf8("X-Forwarded-Proto"@), forwarding.x_forwarded_proto);
    lemma_field_text_unbroken(utf8("X-Forwarded-Host"@), forwarding.x_forwarded_host);
}

proof fn lemma_framing_unbroken(framing: BodyFraming)
    ensures
        forall|k: int|
            0 <= k < framing_texts(framing).len() ==> unbroken(#[trigger] framing_texts(framing)[k])
                && framing_texts(framing)[k].len() > 0,
        unbroken(closing_texts()[0]),
        closing_texts()[0].len() > 0,
{
    lemma_head_literals();
    lemma_field_text_unbroken(utf8("Connection"@), utf8("close"@));
    lemma_field_text_unbroken(utf8("Transfer-Encoding"@), utf8("chunked"@));
    if let BodyFraming::ContentLength(length) = framing {
        lemma_digits_of(length as nat);
        lemma_unbroken_class(digits_of(length as nat), ByteClass::Digit);
        lemma_field_text_unbroken(utf8("Content-Length"@), digits_of(length as nat));
    }
}

/// No line of a head holds a line break, and only the last one is empty: whoever reads the head
/// line by line finds the lines that were written, and no end of the head before its end.
pub proof fn lemma_lines_unbroken(input: HeadInput, isolated: bool)
    requires
        is_head(input, isolated),
    ensures
        forall|k: int|
            0 <= k < head_texts(input).len() ==> {
                &&& unbroken(#[trigger] head_texts(input)[k])
                &&& (head_texts(input)[k].len() == 0 <==> k == head_texts(input).len() - 1)
            },
{
    lemma_opening_unbroken(input, isolated);
    lemma_kept_texts_unbroken(input.headers.fields);
    lemma_forwarding_unbroken(input.forwarding, isolated);
    lemma_framing_unbroken(input.framing);
    let a = opening_texts(input);
    let b = kept_texts(input.headers.fields);
    let c = forwarding_texts(input.forwarding);
    let d = framing_texts(input.framing);
    let e = closing_texts();
    let all = head_texts(input);
    assert forall|k: int| 0 <= k < all.len() implies unbroken(#[trigger] all[k]) && (all[k].len()
        == 0 <==> k == all.len() - 1) by {
        if k < a.len() {
            assert(all[k] == a[k]);
        } else if k < a.len() + b.len() {
            assert(all[k] == b[k - a.len()]);
        } else if k < a.len() + b.len() + c.len() {
            assert(all[k] == c[k - a.len() - b.len()]);
        } else if k < a.len() + b.len() + c.len() + d.len() {
            assert(all[k] == d[k - a.len() - b.len() - c.len()]);
        } else {
            assert(all[k] == e[k - a.len() - b.len() - c.len() - d.len()]);
        }
    }
}

/// Boundaries that accept the same head serialize it alike.
pub proof fn lemma_boundaries_serialize_alike(input: HeadInput)
    ensures
        constructed(input, true) is Ok && constructed(input, false) is Ok ==> constructed(input, true)
            == constructed(input, false),
{
}

/// The fields that no other part of a head stands in for.
pub open spec fn unreplaced(headers: SanitizedModel) -> SanitizedModel {
    SanitizedModel {
        fields: headers.fields.filter(
            |field: FieldModel| field_rule(field.name) != FieldRule::Replace,
        ),
        removed_names: headers.removed_names,
    }
}

proof fn lemma_unreplaced_kept(fields: Seq<FieldModel>)
    ensures
        ({
            let left = fields.filter(
                |field: FieldModel| field_rule(field.name) != FieldRule::Replace,
            );
            &&& left.len() <= fields.len()
            &&& kept_texts(left) == kept_texts(fields)
            &&& forall|i: int| 0 <= i < left.len() ==> fields.contains(#[trigger] left[i])
        }),
    decreases fields.len(),
{
    reveal(Seq::filter);
    let pred = |field: FieldModel| field_rule(field.name) != FieldRule::Replace;
    if fields.len() > 0 {
        let before = fields.drop_last();
        lemma_unreplaced_kept(before);
        let left = before.filter(pred);
        assert forall|i: int| 0 <= i < fields.filter(pred).len() implies fields.contains(
            #[trigger] fields.filter(pred)[i],
        ) by {
            if i < left.len() {
                assert(before.contains(left[i]));
                let j = choose|j: int| 0 <= j < before.len() && before[j] == left[i];
                assert(fields[j] == left[i]);
            } else {
                assert(fields[fields.len() - 1] == fields.filter(pred)[i]);
            }
        }
        if pred(fields.last()) {
            assert(left.push(fields.last()).drop_last() =~= left);
        }
    }
}

/// A field that another part of the head stands in for never reaches the wire: to leave all such
/// fields out changes nothing.
pub proof fn lemma_replaced_fields_are_not_sent(input: HeadInput, isolated: bool)
    requires
        is_head(input, isolated),
    ensures
        ({
            let other = HeadInput { headers: unreplaced(input.headers), ..input };
            &&& is_head(other, isolated)
            &&& head_bytes(other) == head_bytes(input)
            &&& constructed(other, isolated) == constructed(input, isolated)
        }),
{
    let fields = input.headers.fields;
    let left = unreplaced(input.headers).fields;
    lemma_unreplaced_kept(fields);
    assert forall|i: int| 0 <= i < left.len() implies is_head_field(#[trigger] left[i]) by {
        assert(fields.contains(left[i]));
        let j = choose|j: int| 0 <= j < fields.len() && fields[j] == left[i];
        assert(is_head_field(fields[j]));
    }
}

/// A head never exceeds the limit, and its body is framed as was asked.
pub proof fn lemma_head_bounded(input: HeadInput, isolated: bool)
    ensures
        constructed(input, isolated) matches Ok(head) ==> head.bytes.len() <= HEAD_LIMIT
            && head.body_framing == input.framing,
{
}

/// The bytes of two lines.
pub proof fn lemma_two_lines(one: Seq<u8>, two: Seq<u8>)
    ensures
        terminated(seq![one, two]) == one + crlf() + two + crlf(),
{
    let none = Seq::<Seq<u8>>::empty();
    assert(terminated(none) =~= Seq::<u8>::empty());
    lemma_terminated_push(none, one);
    lemma_terminated_push(none.push(one), two);
    assert(none.push(one).push(two) =~= seq![one, two]);
    assert(terminated(seq![one, two]) =~= one + crlf() + two + crlf());
}

/// The bytes of the lines of the forwarding fields.
pub proof fn lemma_forwarding_bytes(forwarding: ForwardingModel)
    ensures
        terminated(forwarding_texts(forwarding)) == forwarding_texts(forwarding)[0] + crlf()
            + forwarding_texts(forwarding)[1] + crlf() + forwarding_texts(forwarding)[2] + crlf()
            + forwarding_texts(forwarding)[3] + crlf(),
{
    let values = forwarding_texts(forwarding);
    let first = seq![values[0], values[1]];
    let second = seq![values[2], values[3]];
    lemma_two_lines(values[0], values[1]);
    lemma_two_lines(values[2], values[3]);
    lemma_terminated_concat(first, second);
    assert(first + second =~= values);
    assert(terminated(values) =~= values[0] + crlf() + values[1] + crlf() + values[2] + crlf()
        + values[3] + crlf());
}

/// The bytes of the line on the body.
pub proof fn lemma_framing_bytes(framing: BodyFraming)
    ensures
        terminated(framing_texts(framing)) == match framing {
            BodyFraming::NoBody => Seq::empty(),
            _ => framing_texts(framing)[0] + crlf(),
        },
{
    let none = Seq::<Seq<u8>>::empty();
    assert(terminated(none) =~= Seq::<u8>::empty());
    let texts = framing_texts(framing);
    if texts.len() > 0 {
        lemma_terminated_push(none, texts[0]);
        assert(none.push(texts[0]) =~= texts);
        assert(terminated(texts) =~= texts[0] + crlf());
    }
}

/// The bytes of the parts of a head, line by line.
pub proof fn lemma_part_bytes(input: HeadInput)
    ensures
        terminated(opening_texts(input)) == opening_texts(input)[0] + crlf() + opening_texts(input)[1]
            + crlf(),
        terminated(forwarding_texts(input.forwarding)) == forwarding_texts(input.forwarding)[0]
            + crlf() + forwarding_texts(input.forwarding)[1] + crlf() + forwarding_texts(
            input.forwarding,
        )[2] + crlf() + forwarding_texts(input.forwarding)[3] + crlf(),
        terminated(framing_texts(input.framing)) == match input.framing {
            BodyFraming::NoBody => Seq::empty(),
            _ => framing_texts(input.framing)[0] + crlf(),
        },
        terminated(closing_texts()) == field_text(utf8("Connection"@), utf8("close"@)) + crlf()
            + crlf(),
{
    let opening = opening_texts(input);
    lemma_two_lines(opening[0], opening[1]);
    assert(opening =~= seq![opening[0], opening[1]]);
    lemma_forwarding_bytes(input.forwarding);
    lemma_framing_bytes(input.framing);
    let closing = closing_texts();
    lemma_two_lines(closing[0], closing[1]);
    assert(closing =~= seq![closing[0], closing[1]]);
    assert(terminated(closing) =~= closing[0] + crlf() + crlf());
}

/// The bytes of one field more.
pub proof fn lemma_kept_step(fields: Seq<FieldModel>, i: int)
    requires
        0 <= i < fields.len(),
    ensures
        terminated(kept_texts(fields.take(i + 1))) == if field_rule(fields[i].name)
            == FieldRule::Keep {
            terminated(kept_texts(fields.take(i))) + field_text(fields[i].name, fields[i].value)
                + crlf()
        } else {
            terminated(kept_texts(fields.take(i)))
        },
{
    let longer = fields.take(i + 1);
    assert(longer.drop_last() =~= fields.take(i));
    lemma_terminated_push(
        kept_texts(fields.take(i)),
        field_text(fields[i].name, fields[i].value),
    );
}

proof fn lemma_kept_concat(a: Seq<FieldModel>, b: Seq<FieldModel>)
    ensures
        kept_texts(a + b) == kept_texts(a) + kept_texts(b),
    decreases b.len(),
{
    if b.len() == 0 {
        assert(a + b =~= a);
        assert(kept_texts(a) + kept_texts(b) =~= kept_texts(a));
    } else {
        lemma_kept_concat(a, b.drop_last());
        assert((a + b).drop_last() =~= a + b.drop_last());
        assert((a + b).last() == b.last());
        assert(kept_texts(a + b) =~= kept_texts(a) + kept_texts(b));
    }
}

/// The bytes of one field more, from the back.
pub proof fn lemma_kept_step_back(fields: Seq<FieldModel>, i: int)
    requires
        0 <= i < fields.len(),
    ensures
        terminated(kept_texts(fields.skip(i))) == if field_rule(fields[i].name) == FieldRule::Keep {
            field_text(fields[i].name, fields[i].value) + crlf() + terminated(
                kept_texts(fields.skip(i + 1)),
            )
        } else {
            terminated(kept_texts(fields.skip(i + 1)))
        },
{
    let one = seq![fields[i]];
    let rest = fields.skip(i + 1);
    assert(fields.skip(i) =~= one + rest);
    lemma_kept_concat(one, rest);
    lemma_terminated_concat(kept_texts(one), kept_texts(rest));
    assert(one.drop_last() =~= Seq::<FieldModel>::empty());
    assert(kept_texts(one.drop_last()) =~= Seq::<Seq<u8>>::empty());
    assert(terminated(Seq::<Seq<u8>>::empty()) =~= Seq::<u8>::empty());
    if field_rule(fields[i].name) == FieldRule::Keep {
        let text = field_text(fields[i].name, fields[i].value);
        lemma_terminated_push(Seq::empty(), text);
        assert(kept_texts(one) =~= Seq::<Seq<u8>>::empty().push(text));
        assert(terminated(kept_texts(one)) =~= text + crlf());
    } else {
        assert(kept_texts(one) =~= Seq::<Seq<u8>>::empty());
        assert(terminated(kept_texts(fields.skip(i))) =~= terminated(kept_texts(rest)));
    }
}

/// Whether the bit of a field is set.
pub open spec fn is_retained(mask: u128, index: int) -> bool {
    mask & (1u128 << (index as u32)) != 0
}

pub proof fn lemma_retain(mask: u128, i: u32, j: u32)
    by (bit_vector)
    requires
        i < 128,
        j < 128,
    ensures
        ((mask | (1u128 << i)) & (1u128 << j) != 0) == (mask & (1u128 << j) != 0 || i == j),
{
}

pub proof fn lemma_retain_none(j: u32)
    by (bit_vector)
    requires
        j < 128,
    ensures
        0u128 & (1u128 << j) == 0,
{
}

/// Whether the bits of the first fields say which of them are passed on, and no other bit is set.
pub open spec fn follows(mask: u128, fields: Seq<FieldModel>, upto: int) -> bool {
    forall|i: int|
        0 <= i < 128 ==> #[trigger] is_retained(mask, i) == (i < upto && field_rule(fields[i].name)
            == FieldRule::Keep)
}

/// The fields that are passed on are bounded by their number.
pub proof fn lemma_kept_size(fields: Seq<FieldModel>)
    requires
        forall|i: int| 0 <= i < fields.len() ==> is_head_field(#[trigger] fields[i]),
    ensures
        terminated(kept_texts(fields)).len() <= 8324 * fields.len(),
    decreases fields.len(),
{
    if fields.len() > 0 {
        let shorter = fields.drop_last();
        assert forall|i: int| 0 <= i < shorter.len() implies is_head_field(#[trigger] shorter[i]) by {
            assert(is_head_field(fields[i]));
        }
        lemma_kept_size(shorter);
        lemma_head_literals();
        assert(is_head_field(fields[fields.len() - 1]));
        lemma_terminated_push(
            kept_texts(shorter),
            field_text(fields.last().name, fields.last().value),
        );
    }
}

proof fn lemma_digits_len(n: nat)
    ensures
        1 <= digits_of(n).len(),
        n < 10 ==> digits_of(n).len() == 1,
        n >= 10 ==> digits_of(n).len() == digits_of(n / 10).len() + 1,
{
    lemma_digits_of(n);
}

proof fn lemma_five_digits(n: nat)
    ensures
        digits_of(n).len() <= digits_of(n / 100_000).len() + 5,
        n < 100_000 ==> digits_of(n).len() <= 5,
{
    lemma_digits_len(n);
    lemma_digits_len(n / 10);
    lemma_digits_len(n / 100);
    lemma_digits_len(n / 1_000);
    lemma_digits_len(n / 10_000);
    lemma_digits_len(n / 100_000);
}

pub proof fn lemma_twenty_digits(n: nat)
    requires
        n <= u64::MAX,
    ensures
        digits_of(n).len() <= 20,
{
    lemma_five_digits(n);
    lemma_five_digits(n / 100_000);
    lemma_five_digits(n / 10_000_000_000);
    lemma_five_digits(n / 1_000_000_000_000_000);
    assert(n / 100_000 / 100_000 == n / 10_000_000_000);
    assert(n / 10_000_000_000 / 100_000 == n / 1_000_000_000_000_000);
    assert(n / 1_000_000_000_000_000 < 100_000);
}

/// How long the parts of a head are.
pub proof fn lemma_part_sizes(input: HeadInput)
    ensures
        terminated(opening_texts(input)).len() == input.method.len()
            + input.target.path_and_query.len() + endpoint_text(
            effective_host(input.authority).unwrap(),
            input.authority.port,
        ).len() + 20,
        terminated(forwarding_texts(input.forwarding)).len() == input.forwarding.forwarded.len()
            + input.forwarding.x_forwarded_for.len() + input.forwarding.x_forwarded_proto.len()
            + input.forwarding.x_forwarded_host.len() + 73,
        terminated(framing_texts(input.framing)).len() == match input.framing {
            BodyFraming::NoBody => 0,
            BodyFraming::ContentLength(length) => digits_of(length as nat).len() + 18,
            BodyFraming::Chunked => 28,
        },
        terminated(closing_texts()).len() == 21,
{
    lemma_head_literals();
    lemma_part_bytes(input);
}

/// A head is short enough that its size is a machine size.
pub proof fn lemma_head_size(input: HeadInput, isolated: bool)
    requires
        is_head(input, isolated),
    ensures
        head_bytes(input).len() < 2_000_000,
        endpoint_text(effective_host(input.authority).unwrap(), input.authority.port).len() < 400,
        effective_host(input.authority).unwrap().text.len() < 300,
{
    lemma_head_parts(input);
    lemma_part_sizes(input);
    lemma_kept_size(input.headers.fields);
    lemma_host_unbroken(input.authority.host);
    if let Some(port) = input.authority.port {
        lemma_five_digits(port as nat);
    }
    if let BodyFraming::ContentLength(length) = input.framing {
        lemma_twenty_digits(length as nat);
    }
}

/// A host read from a text.
#[derive(Clone, Copy)]
pub struct WireHost<'a> {
    pub text: &'a [u8],
    pub is_v6: bool,
}

impl<'a> View for WireHost<'a> {
    type V = HostModel;

    open spec fn view(&self) -> HostModel {
        HostModel { text: self.text@, is_v6: self.is_v6 }
    }
}

pub open spec fn host_of(host: Option<WireHost>) -> Option<HostModel> {
    match host {
        Some(host) => Some(host@),
        None => None,
    }
}

pub open spec fn endpoint_of(endpoint: Option<(WireHost, Option<u16>)>) -> Option<
    (HostModel, Option<u16>),
> {
    match endpoint {
        Some((host, port)) => Some((host@, port)),
        None => None,
    }
}

/// Whether the bytes are a token without upper-case letters.
pub fn is_lower_token_text(s: &[u8], limit: usize) -> (valid: bool)
    ensures
        valid == is_lower_token(s@, limit as int),
{
    s.len() >= 1 && s.len() <= limit && all_bytes_in(s, ByteClass::Token) && !any_byte_in(
        s,
        ByteClass::Upper,
    )
}

/// What becomes of a field with a name.
pub fn field_rule_text(name: &str) -> (rule: FieldRule)
    ensures
        rule == field_rule(utf8(name@)),
{
    if starts_with(name.as_bytes(), "x-forwarded-".as_bytes()) || same_text(name, "host")
        || same_text(name, "content-length") || same_text(name, "transfer-encoding") || same_text(
        name,
        "connection",
    ) || same_text(name, "forwarded") {
        FieldRule::Replace
    } else if same_text(name, "proxy-connection") || same_text(name, "keep-alive") || same_text(
        name,
        "te",
    ) || same_text(name, "trailer") || same_text(name, "upgrade") || same_text(
        name,
        "proxy-authenticate",
    ) || same_text(name, "proxy-authorization") {
        FieldRule::Reject
    } else {
        FieldRule::Keep
    }
}

/// Whether a value begins or ends with optional whitespace.
pub fn has_edge_ows_bytes(value: &[u8]) -> (edge: bool)
    ensures
        edge == has_edge_ows(value@),
{
    value.len() > 0 && (is_ows(value[0]) || is_ows(value[value.len() - 1]))
}

/// Whether a field can be serialized.
pub fn is_head_field_text(field: &HeaderField) -> (valid: bool)
    ensures
        valid == is_head_field(field@),
{
    is_lower_token_text(field.name.as_str().as_bytes(), NAME_MAX) && field.value.len() <= VALUE_MAX
        && all_bytes_in(field.value.as_slice(), ByteClass::Field) && !has_edge_ows_bytes(
        field.value.as_slice(),
    ) && !matches!(field_rule_text(field.name.as_str()), FieldRule::Reject)
}

/// Whether names are lower-case tokens, sorted, and none is there twice.
pub fn are_removed_names(names: &Vec<String>) -> (valid: bool)
    ensures
        valid == {
            &&& forall|i: int|
                0 <= i < names@.len() ==> is_lower_token(
                    #[trigger] texts_of(names@)[i],
                    NAME_MAX as int,
                )
            &&& strictly_sorted(texts_of(names@))
        },
{
    let ghost texts = texts_of(names@);
    let mut index: usize = 0;
    while index < names.len()
        invariant
            index <= names@.len(),
            texts == texts_of(names@),
            forall|i: int| 0 <= i < index ==> is_lower_token(#[trigger] texts[i], NAME_MAX as int),
            forall|i: int, j: int|
                0 <= i < j < index ==> precedes(#[trigger] texts[i], #[trigger] texts[j]),
        decreases names@.len() - index,
    {
        let name: &[u8] = names[index].as_str().as_bytes();
        assert(texts[index as int] == name@);
        if !is_lower_token_text(name, NAME_MAX) {
            return false;
        }
        if index > 0 {
            assert(texts[index - 1] == utf8(names@[index - 1]@));
            if !comes_before(names[index - 1].as_str().as_bytes(), name) {
                return false;
            }
            proof {
                assert forall|i: int| 0 <= i < index implies precedes(
                    #[trigger] texts[i],
                    texts[index as int],
                ) by {
                    if i < index - 1 {
                        assert(precedes(texts[i], texts[index - 1]));
                        lemma_precedes_transitive(
                            texts[i],
                            texts[index - 1],
                            texts[index as int],
                            0,
                        );
                    }
                }
            }
        }
        index += 1;
    }
    true
}

pub fn is_wire_ipv6_text(s: &[u8]) -> (valid: bool)
    ensures
        valid == is_wire_ipv6(s@),
{
    is_ipv6_text(s) && !any_byte_in(s, ByteClass::Upper)
}

pub fn is_wire_dns_text(s: &[u8]) -> (valid: bool)
    ensures
        valid == is_wire_dns(s@),
{
    is_dns(s) && !any_byte_in(s, ByteClass::Upper)
}

/// Reads a host in lower case.
pub fn read_wire_host<'a>(host: &'a [u8]) -> (read: Option<WireHost<'a>>)
    ensures
        host_of(read) == wire_host(host@),
{
    if host.len() >= 2 && host[0] == '[' as u8 && host[host.len() - 1] == ']' as u8 {
        let inner: &'a [u8] = &host[1..host.len() - 1];
        if is_wire_ipv6_text(inner) {
            Some(WireHost { text: inner, is_v6: true })
        } else {
            None
        }
    } else if any_byte_in(host, ByteClass::Only(':' as u8)) {
        if is_wire_ipv6_text(host) {
            Some(WireHost { text: host, is_v6: true })
        } else {
            None
        }
    } else if is_wire_dns_text(host) {
        Some(WireHost { text: host, is_v6: false })
    } else {
        None
    }
}

/// Reads the host of the effective authority.
pub fn read_effective_host<'a>(authority: &'a EffectiveAuthority) -> (read: Option<WireHost<'a>>)
    ensures
        host_of(read) == effective_host(authority@),
{
    if matches!(authority.port, Some(0)) {
        return None;
    }
    read_wire_host(authority.host.as_str().as_bytes())
}

fn read_declared_port(s: &[u8], signed: bool) -> (port: Option<u16>)
    ensures
        port == declared_port(s@, signed),
{
    if signed && s.len() > 0 && s[0] == '+' as u8 {
        let digits: &[u8] = &s[1..s.len()];
        assert(digits@ =~= s@.skip(1));
        parse_port_number(digits)
    } else {
        parse_port_number(s)
    }
}

/// Reads the authority of a target.
pub fn read_target_endpoint<'a>(raw: &'a [u8], signed: bool) -> (read: Option<
    (WireHost<'a>, Option<u16>),
>)
    ensures
        endpoint_of(read) == target_endpoint(raw@, signed),
{
    if raw.len() > 0 && raw[0] == '[' as u8 {
        let close: usize = find_in(raw, ByteClass::Only(']' as u8));
        proof {
            lemma_first_in(raw@, ByteClass::Only(']' as u8));
        }
        if close >= raw.len() {
            return None;
        }
        let inner: &'a [u8] = &raw[1..close];
        if !is_wire_ipv6_text(inner) {
            return None;
        }
        let host: WireHost<'a> = WireHost { text: inner, is_v6: true };
        let rest: &'a [u8] = &raw[close + 1..raw.len()];
        assert(rest@ =~= raw@.skip(close + 1));
        if rest.len() == 0 {
            return Some((host, None));
        }
        if rest[0] != ':' as u8 {
            return None;
        }
        let spelled: &'a [u8] = &rest[1..rest.len()];
        assert(spelled@ =~= rest@.skip(1));
        match read_declared_port(spelled, signed) {
            Some(port) => Some((host, Some(port))),
            None => None,
        }
    } else {
        let colon: usize = find_in(raw, ByteClass::Only(':' as u8));
        let name: &'a [u8] = &raw[0..colon];
        assert(name@ =~= raw@.take(colon as int));
        if !is_wire_dns_text(name) {
            return None;
        }
        let host: WireHost<'a> = WireHost { text: name, is_v6: false };
        if colon >= raw.len() {
            return Some((host, None));
        }
        let spelled: &'a [u8] = &raw[colon + 1..raw.len()];
        assert(spelled@ =~= raw@.skip(colon + 1));
        match read_declared_port(spelled, signed) {
            Some(port) => Some((host, Some(port))),
            None => None,
        }
    }
}

/// The default port of a scheme.
pub fn default_port_of(scheme: &Option<String>) -> (port: Option<u16>)
    ensures
        port == default_port(utf8_opt(*scheme)),
{
    match scheme {
        Some(text) => if same_text(text.as_str(), "http") {
            Some(80)
        } else if same_text(text.as_str(), "https") {
            Some(443)
        } else {
            None
        },
        None => None,
    }
}

/// Whether two hosts are spelled alike.
pub fn same_host(left: &WireHost, right: &WireHost) -> (same: bool)
    ensures
        same == (left@ == right@),
{
    left.is_v6 == right.is_v6 && same_bytes(left.text, right.text)
}

/// Whether a target with the authority fits the effective one.
pub fn authorities_agree(
    default: u16,
    host: &WireHost,
    port: Option<u16>,
    effective: &WireHost,
    effective_port: Option<u16>,
) -> (agree: bool)
    ensures
        agree == {
            &&& effective_port != Some(default)
            &&& host@ == effective@
            &&& port_or(port, default) == port_or(effective_port, default)
        },
{
    let declared: u16 = match port {
        Some(port) => port,
        None => default,
    };
    match effective_port {
        Some(actual) => actual != default && declared == actual && same_host(host, effective),
        None => declared == default && same_host(host, effective),
    }
}

/// Whether the form of a target fits, given the host of the effective authority.
pub fn is_form_fitting(
    target: &NormalizedTarget,
    authority: &EffectiveAuthority,
    effective: &WireHost,
    isolated: bool,
) -> (fits: bool)
    requires
        effective_host(authority@) == Some(effective@),
    ensures
        fits == form_fits(target@, authority@, isolated),
{
    match target.form {
        TargetForm::Origin => target.scheme.is_none() && target.authority.is_none(),
        TargetForm::Absolute => match (default_port_of(&target.scheme), &target.authority) {
            (Some(default), Some(raw)) => match read_target_endpoint(
                raw.as_str().as_bytes(),
                isolated,
            ) {
                Some((host, port)) => isolated || authorities_agree(
                    default,
                    &host,
                    port,
                    effective,
                    authority.port,
                ),
                None => false,
            },
            _ => false,
        },
        TargetForm::Authority => false,
        TargetForm::Asterisk => false,
    }
}

fn has_wire_escape(s: &[u8], i: usize, upto: usize) -> (valid: bool)
    requires
        i < s@.len(),
    ensures
        valid == is_wire_escape(s@, i as int, upto as int),
{
    if s.len() - i <= 2 {
        return false;
    }
    let high: u8 = s[i + 1];
    let low: u8 = s[i + 2];
    if !is_upper_hex(high) || !is_upper_hex(low) {
        return false;
    }
    let decoded: u8 = hex_digit_value(high) * 16 + hex_digit_value(low);
    !is_control(decoded) && !is_unreserved(decoded) && (i >= upto || (decoded != '/' as u8
        && decoded != '\\' as u8))
}

/// Whether the bytes are target bytes and canonical escapes.
pub fn is_wire_target_text(s: &[u8], upto: usize) -> (valid: bool)
    ensures
        valid == is_wire_target(s@, 0, upto as int),
{
    let mut i: usize = 0;
    while i < s.len()
        invariant
            i <= s@.len(),
            is_wire_target(s@, 0, upto as int) == is_wire_target(s@, i as int, upto as int),
        decreases s@.len() - i,
    {
        if s[i] == '%' as u8 {
            if !has_wire_escape(s, i, upto) {
                return false;
            }
            i += 3;
        } else {
            if !is_target_byte(s[i]) {
                return false;
            }
            i += 1;
        }
    }
    true
}

/// Whether the path and the query of a target can be serialized.
pub fn is_path_fitting(target: &NormalizedTarget, isolated: bool) -> (fits: bool)
    ensures
        fits == path_fits(target@, isolated),
{
    let value: &[u8] = target.path_and_query.as_str().as_bytes();
    if value.len() == 0 || value.len() > TARGET_MAX || value[0] != '/' as u8 {
        return false;
    }
    let end: usize = find_in(value, ByteClass::Only('?' as u8));
    let path: &[u8] = &value[0..end];
    assert(path@ =~= value@.take(end as int));
    let upto: usize = if isolated {
        value.len()
    } else {
        end
    };
    same_bytes(target.routing_path.as_str().as_bytes(), path) && is_wire_target_text(value, upto)
        && !has_dots(path)
}

/// Whether a forwarding value can be serialized where quoted strings are not understood.
pub fn is_plain_wire_value(value: &[u8]) -> (valid: bool)
    ensures
        valid == is_wire_value(value@, false),
{
    value.len() >= 1 && value.len() <= FORWARDING_VALUE_LIMIT && value[0] != ' ' as u8
        && value[value.len() - 1] != ' ' as u8 && is_list_value(value)
}

/// How many decimal digits a number has.
pub fn decimal_len(value: u64) -> (len: usize)
    ensures
        len == digits_of(value as nat).len(),
        1 <= len <= 20,
{
    let mut rest: u64 = value;
    let mut len: usize = 1;
    proof {
        lemma_twenty_digits(value as nat);
        lemma_digits_len(value as nat);
    }
    while rest >= 10
        invariant
            1 <= len <= digits_of(value as nat).len() <= 20,
            digits_of(value as nat).len() == len - 1 + digits_of(rest as nat).len(),
        decreases rest,
    {
        proof {
            lemma_digits_len(rest as nat);
            lemma_digits_len(rest as nat / 10);
        }
        rest = rest / 10;
        len += 1;
    }
    proof {
        lemma_digits_len(rest as nat);
    }
    len
}

/// Reading on, the members before the last edge are not blank, and the one after it is blank
/// where nothing but spaces has been read.
proof fn lemma_edges_step(s: Seq<u8>, edge: int, i: int)
    requires
        -1 <= edge < i <= s.len(),
        is_member_edge(s, edge),
        forall|k: int| edge < k < i ==> !is_member_edge(s, k),
        forall|a: int, b: int|
            #![trigger is_member_edge(s, a), is_member_edge(s, b)]
            a < b <= edge && is_member_edge(s, a) && is_member_edge(s, b) ==> !is_blank(
                s.subrange(a + 1, b),
            ),
        is_member_edge(s, i),
        !is_blank(s.subrange(edge + 1, i)),
    ensures
        forall|a: int, b: int|
            #![trigger is_member_edge(s, a), is_member_edge(s, b)]
            a < b <= i && is_member_edge(s, a) && is_member_edge(s, b) ==> !is_blank(
                s.subrange(a + 1, b),
            ),
{
    let inner = s.subrange(edge + 1, i);
    let k = choose|k: int|
        0 <= k < inner.len() && !ByteClass::Only(' ' as u8).has(#[trigger] inner[k]);
    assert forall|a: int, b: int|
        #![trigger is_member_edge(s, a), is_member_edge(s, b)]
        a < b <= i && is_member_edge(s, a) && is_member_edge(s, b) implies !is_blank(
        s.subrange(a + 1, b),
    ) by {
        if b == i && a <= edge {
            let outer = s.subrange(a + 1, b);
            assert(outer[edge - a + k] == inner[k]);
            assert(!ByteClass::Only(' ' as u8).has(outer[edge - a + k]));
        }
    }
}

/// Whether every quoted string is closed and no list member is blank.
pub fn is_quoted_list_text(s: &[u8]) -> (valid: bool)
    ensures
        valid == is_quoted_list(s@),
{
    let mut state: QuoteState = QuoteState::Outside;
    let ghost mut edge: int = -1;
    let mut start: usize = 0;
    let mut index: usize = 0;
    assert(is_member_edge(s@, -1));
    while index < s.len()
        invariant
            index <= s@.len(),
            start <= index,
            edge == start - 1,
            is_member_edge(s@, edge),
            state == quote_state(s@, index as int),
            forall|k: int| edge < k < index ==> !is_member_edge(s@, k),
            forall|a: int, b: int|
                #![trigger is_member_edge(s@, a), is_member_edge(s@, b)]
                a < b <= edge && is_member_edge(s@, a) && is_member_edge(s@, b) ==> !is_blank(
                    s@.subrange(a + 1, b),
                ),
        decreases s@.len() - index,
    {
        let byte: u8 = s[index];
        if byte == ',' as u8 && matches!(state, QuoteState::Outside) {
            assert(is_member_edge(s@, index as int));
            if all_bytes_in(&s[start..index], ByteClass::Only(' ' as u8)) {
                return false;
            }
            proof {
                lemma_edges_step(s@, edge, index as int);
                edge = index as int;
            }
            start = index + 1;
        }
        state = after_byte(state, byte);
        index += 1;
    }
    assert(is_member_edge(s@, index as int));
    if all_bytes_in(&s[start..s.len()], ByteClass::Only(' ' as u8)) {
        return false;
    }
    proof {
        lemma_edges_step(s@, edge, index as int);
    }
    matches!(state, QuoteState::Outside)
}

/// Whether a forwarding value can be serialized where quoted strings are understood.
pub fn is_quoted_wire_value(value: &[u8]) -> (valid: bool)
    ensures
        valid == is_wire_value(value@, true),
{
    value.len() >= 1 && value.len() <= FORWARDING_VALUE_LIMIT && all_bytes_in(
        value,
        ByteClass::Printable,
    ) && value[0] != ' ' as u8 && value[value.len() - 1] != ' ' as u8 && is_quoted_list_text(value)
}

/// Appends the upper-case form of the bytes.
pub fn append_upper(out: &mut Vec<u8>, s: &[u8])
    ensures
        final(out)@ == old(out)@ + uppered(s@),
{
    let mut index: usize = 0;
    assert(out@ =~= out@ + uppered(s@).take(0));
    while index < s.len()
        invariant
            index <= s@.len(),
            out@ == old(out)@ + uppered(s@).take(index as int),
        decreases s@.len() - index,
    {
        out.push(to_upper(s[index]));
        index += 1;
        assert(uppered(s@).take(index as int) =~= uppered(s@).take(index - 1).push(
            uppered(s@)[index - 1],
        ));
    }
    assert(uppered(s@).take(index as int) =~= uppered(s@));
}

/// Appends a line break.
pub fn append_line_break(out: &mut Vec<u8>)
    ensures
        final(out)@ == old(out)@ + crlf(),
{
    out.push('\r' as u8);
    out.push('\n' as u8);
    assert(out@ =~= old(out)@ + crlf());
}

/// Appends the decimal digits of a number.
pub fn append_decimal(out: &mut Vec<u8>, value: u64)
    ensures
        final(out)@ == old(out)@ + digits_of(value as nat),
{
    let digits: Vec<u8> = render_decimal(value);
    append(out, digits.as_slice());
}

/// Appends a host and a port.
pub fn append_endpoint(out: &mut Vec<u8>, host: &WireHost, port: Option<u16>)
    ensures
        final(out)@ == old(out)@ + endpoint_text(host@, port),
{
    if host.is_v6 {
        out.push('[' as u8);
    }
    append(out, host.text);
    if host.is_v6 {
        out.push(']' as u8);
    }
    if let Some(number) = port {
        out.push(':' as u8);
        append_decimal(out, number as u64);
    }
    assert(out@ =~= old(out)@ + endpoint_text(host@, port));
}

/// How long a host and a port are together.
pub fn endpoint_len(host: &WireHost, port: Option<u16>) -> (len: usize)
    requires
        host@.text.len() < 300,
    ensures
        len == endpoint_text(host@, port).len(),
        len < 400,
{
    let brackets: usize = if host.is_v6 {
        2
    } else {
        0
    };
    let digits: usize = match port {
        Some(number) => 1 + decimal_len(number as u64),
        None => 0,
    };
    host.text.len() + brackets + digits
}

/// Appends the line of a field.
pub fn append_field_line(out: &mut Vec<u8>, name: &[u8], value: &[u8])
    ensures
        final(out)@ == old(out)@ + field_text(name@, value@) + crlf(),
{
    append(out, name);
    append(out, ": ".as_bytes());
    append(out, value);
    append_line_break(out);
    assert(out@ =~= old(out)@ + field_text(name@, value@) + crlf());
}

/// Appends the request line.
pub fn append_request_line(out: &mut Vec<u8>, method: &[u8], path_and_query: &[u8])
    ensures
        final(out)@ == old(out)@ + request_text(method@, path_and_query@) + crlf(),
{
    append_upper(out, method);
    out.push(' ' as u8);
    append(out, path_and_query);
    append(out, " HTTP/1.1".as_bytes());
    append_line_break(out);
    assert(out@ =~= old(out)@ + request_text(method@, path_and_query@) + crlf());
}

/// Appends the request line and the Host line.
pub fn append_opening(
    out: &mut Vec<u8>,
    method: &[u8],
    path_and_query: &[u8],
    host: &WireHost,
    port: Option<u16>,
)
    ensures
        final(out)@ == old(out)@ + terminated(
            seq![
                request_text(method@, path_and_query@),
                field_text(utf8("Host"@), endpoint_text(host@, port)),
            ],
        ),
{
    append_request_line(out, method, path_and_query);
    append(out, "Host".as_bytes());
    append(out, ": ".as_bytes());
    append_endpoint(out, host, port);
    append_line_break(out);
    proof {
        let one = request_text(method@, path_and_query@);
        let two = field_text(utf8("Host"@), endpoint_text(host@, port));
        lemma_two_lines(one, two);
        assert(out@ =~= old(out)@ + terminated(seq![one, two]));
    }
}

/// Appends the lines of the forwarding fields.
pub fn append_forwarding(out: &mut Vec<u8>, forwarding: &ForwardingResult)
    ensures
        final(out)@ == old(out)@ + terminated(forwarding_texts(forwarding@)),
{
    append_field_line(out, "Forwarded".as_bytes(), forwarding.forwarded.as_str().as_bytes());
    append_field_line(
        out,
        "X-Forwarded-For".as_bytes(),
        forwarding.x_forwarded_for.as_str().as_bytes(),
    );
    append_field_line(
        out,
        "X-Forwarded-Proto".as_bytes(),
        forwarding.x_forwarded_proto.as_str().as_bytes(),
    );
    append_field_line(
        out,
        "X-Forwarded-Host".as_bytes(),
        forwarding.x_forwarded_host.as_str().as_bytes(),
    );
    proof {
        lemma_forwarding_bytes(forwarding@);
        assert(out@ =~= old(out)@ + terminated(forwarding_texts(forwarding@)));
    }
}

/// Appends the line on the body and the lines at the end.
pub fn append_closing(out: &mut Vec<u8>, framing: &BodyFraming)
    ensures
        final(out)@ == old(out)@ + terminated(framing_texts(*framing)) + terminated(
            closing_texts(),
        ),
{
    match framing {
        BodyFraming::NoBody => {},
        BodyFraming::ContentLength(length) => {
            let digits: Vec<u8> = render_decimal(*length);
            append_field_line(out, "Content-Length".as_bytes(), digits.as_slice());
        },
        BodyFraming::Chunked => {
            append_field_line(out, "Transfer-Encoding".as_bytes(), "chunked".as_bytes());
        },
    }
    proof {
        lemma_framing_bytes(*framing);
        assert(out@ =~= old(out)@ + terminated(framing_texts(*framing)));
    }
    append_field_line(out, "Connection".as_bytes(), "close".as_bytes());
    append_line_break(out);
    proof {
        let closing = closing_texts();
        lemma_two_lines(closing[0], closing[1]);
        assert(closing =~= seq![closing[0], closing[1]]);
        assert(out@ =~= old(out)@ + terminated(framing_texts(*framing)) + terminated(closing));
    }
}

} // verus!
