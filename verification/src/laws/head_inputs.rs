//! Which requests have a head.

use vstd::prelude::*;
use crate::bytes::{ByteClass, any_in, lowered, precedes};
use crate::canonical_head::{
    HeadInput, QuoteState, are_head_fields, constructed, head_bytes, is_head_field,
    is_lower_token, is_member_edge, is_quoted_list, is_wire_target, is_wire_value, path_fits,
    quote_state, wire_host,
};
use crate::hex::hex_digit_value;
use crate::ip::{is_ipv6, is_ipv6_byte, lemma_ipv6_bytes};
use crate::laws::byte_text::with_between;
use crate::laws::chunks::{QuotedByte, in_quotes, is_quoting};
use crate::laws::forwarded::{is_extensible, lemma_extensible};
use crate::laws::heads::lemma_head_fields;
use crate::laws::hosts::{is_dotted, lemma_dns_names};
use crate::laws::request_lines::is_method;
use crate::laws::route_rules::{is_uncapital, lemma_uncapital};
use crate::laws::sections::{is_name, is_value};
use crate::laws::targets::{
    Piece, are_segments, is_query, lemma_origin_target_is_read, normal, normal_query,
    normal_segments, path_spelling, query_spelling,
};
use crate::names::strictly_sorted;
use crate::pipeline::lemma_normalized_is_wire;
use crate::request_target::{normalized, path_end};
use crate::route::{decoded_byte, is_upper_hex};
use crate::text::{lemma_ascii_literal, utf8};
use crate::types::{BodyFraming, Fault, HeadModel, HttpVersion, RequestLineModel, TargetModel};

verus! {

/// Whether a host is one that a head names: a name of dotted labels of at most 253 bytes, or an
/// IPv6 address with brackets or without, in lower case.
pub open spec fn is_head_host(host: Seq<u8>) -> bool {
    &&& is_uncapital(host)
    &&& {
        ||| is_dotted(host) && host.len() <= 253
        ||| is_ipv6(host) && host.contains(0x3au8)
        ||| host.len() >= 2 && host[0] == 0x5b && host[host.len() - 1] == 0x5d && is_ipv6(
            host.subrange(1, host.len() - 1),
        )
    }
}

proof fn lemma_head_hosts(host: Seq<u8>)
    ensures
        is_head_host(host) <==> wire_host(host) is Some,
{
    let only = ByteClass::Only(':' as u8);
    lemma_dns_names(host);
    assert(is_uncapital(host) == !any_in(host, ByteClass::Upper)) by {
        lemma_uncapital(host);
    }
    assert(host.contains(0x3au8) == any_in(host, only)) by {
        if host.contains(0x3au8) {
            let i = choose|i: int| 0 <= i < host.len() && host[i] == 0x3a;
            assert(only.has(host[i]));
        }
    }
    if is_ipv6(host) {
        lemma_ipv6_bytes(host);
        assert(is_ipv6_byte(host[0]));
    }
    if is_dotted(host) {
        assert(0x2d <= host[0] <= 0x2e || 0x30 <= host[0] <= 0x39 || 0x41 <= host[0] <= 0x5a || 0x61
            <= host[0] <= 0x7a);
        if host.contains(0x3au8) {
            let i = choose|i: int| 0 <= i < host.len() && host[i] == 0x3a;
            assert(0x2d <= host[i] <= 0x2e || 0x30 <= host[i] <= 0x39 || 0x41 <= host[i] <= 0x5a
                || 0x61 <= host[i] <= 0x7a);
        }
    }
    if host.len() >= 2 && host[0] == '[' as u8 && host.last() == ']' as u8 {
        let inner = host.subrange(1, host.len() - 1);
        lemma_uncapital(inner);
        if is_uncapital(host) {
            assert forall|i: int| 0 <= i < inner.len() implies !(0x41 <= #[trigger] inner[i]
                <= 0x5a) by {
                assert(inner[i] == host[i + 1]);
            }
        }
        if is_uncapital(inner) {
            assert forall|i: int| 0 <= i < host.len() implies !(0x41 <= #[trigger] host[i]
                <= 0x5a) by {
                if 1 <= i < host.len() - 1 {
                    assert(host[i] == inner[i - 1]);
                }
            }
        }
    }
}

/// Whether no escape in a text stands for `/` or `\`.
pub open spec fn has_no_separator_escape(s: Seq<u8>) -> bool {
    forall|i: int|
        0 <= i && i + 2 < s.len() && #[trigger] s[i] == 0x25 ==> !(s[i + 1] == 0x32 && s[i + 2]
            == 0x46) && !(s[i + 1] == 0x35 && s[i + 2] == 0x43)
}

proof fn lemma_isolated_target(s: Seq<u8>, i: int, upto: int)
    requires
        0 <= i,
        is_wire_target(s, i, upto),
        has_no_separator_escape(s),
    ensures
        is_wire_target(s, i, s.len() as int),
    decreases s.len() - i,
{
    if i < s.len() {
        if s[i] == '%' as u8 {
            let high = s[i + 1];
            let low = s[i + 2];
            assert(is_upper_hex(high) && is_upper_hex(low));
            assert(hex_digit_value(high) <= 15 && hex_digit_value(low) <= 15);
            let b = decoded_byte(high, low);
            assert(b == hex_digit_value(high) * 16 + hex_digit_value(low));
            if b == 0x2f {
                assert(hex_digit_value(high) == 2 && hex_digit_value(low) == 15);
                assert(high == 0x32 && low == 0x46);
            }
            if b == 0x5c {
                assert(hex_digit_value(high) == 5 && hex_digit_value(low) == 12);
                assert(high == 0x35 && low == 0x43);
            }
            lemma_isolated_target(s, i + 3, upto);
        } else {
            lemma_isolated_target(s, i + 1, upto);
        }
    }
}

/// Whether a value may be a forwarding value of a head: one to 1024 printable bytes that neither
/// begin nor end with a space, and of which no part between commas is empty or all spaces.
pub open spec fn is_head_value(value: Seq<u8>) -> bool {
    value.len() >= 1 && is_extensible(value) && value[0] != 0x20 && value[value.len() - 1] != 0x20
}

proof fn lemma_head_value(value: Seq<u8>, isolated: bool)
    requires
        is_head_value(value),
        isolated ==> is_quoted_list(value),
    ensures
        is_wire_value(value, isolated),
{
    lemma_extensible(value);
}

/// Every request in origin form has a head, as long as it has at most 49152 bytes, where: the
/// method is a token without capitals of at most 32 bytes; the path and the query are in normal
/// form and the routing path is the path; the host is one that a head names and the port is not
/// zero; the fields are at most 128, each a token without capitals other than the seven names
/// that concern one connection only, with a trimmed value; the removed names are tokens without
/// capitals in order; the length is at most 16777216; and the forwarding values are lists.
/// Isolated from the other parts, a boundary also wants no escape for a separator in the query
/// and no comma of a list inside quotes to part it.
pub proof fn lemma_requests_have_heads(
    input: HeadInput,
    segments: Seq<Seq<Piece>>,
    query: Option<Seq<Piece>>,
    isolated: bool,
)
    requires
        is_method(input.method),
        is_uncapital(input.method),
        input.target.form is Origin,
        input.target.scheme is None,
        input.target.authority is None,
        are_segments(segments),
        is_query(query),
        forall|k: int|
            0 <= k < segments.len() ==> normal(#[trigger] segments[k]) != seq![0x2eu8] && normal(
                segments[k],
            ) != seq![0x2eu8, 0x2eu8],
        path_spelling(segments).len() + query_spelling(query).len() <= 8192,
        input.target.routing_path == seq![0x2fu8] + with_between(normal_segments(segments), 0x2f),
        input.target.path_and_query == input.target.routing_path + normal_query(query),
        isolated ==> has_no_separator_escape(input.target.path_and_query),
        is_head_host(input.authority.host),
        input.authority.port != Some(0u16),
        input.headers.fields.len() <= 128,
        forall|i: int|
            0 <= i < input.headers.fields.len() ==> {
                let field = #[trigger] input.headers.fields[i];
                &&& is_name(field.name)
                &&& is_uncapital(field.name)
                &&& is_value(field.value)
                &&& field.name != utf8("proxy-connection"@)
                &&& field.name != utf8("keep-alive"@)
                &&& field.name != utf8("te"@)
                &&& field.name != utf8("trailer"@)
                &&& field.name != utf8("upgrade"@)
                &&& field.name != utf8("proxy-authenticate"@)
                &&& field.name != utf8("proxy-authorization"@)
            },
        forall|i: int|
            0 <= i < input.headers.removed_names.len() ==> is_name(
                #[trigger] input.headers.removed_names[i],
            ) && is_uncapital(input.headers.removed_names[i]),
        forall|i: int, j: int|
            0 <= i < j < input.headers.removed_names.len() ==> precedes(
                #[trigger] input.headers.removed_names[i],
                #[trigger] input.headers.removed_names[j],
            ),
        input.framing matches BodyFraming::ContentLength(length) ==> length <= 16777216,
        is_head_value(input.forwarding.forwarded),
        is_head_value(input.forwarding.x_forwarded_for),
        is_head_value(input.forwarding.x_forwarded_proto),
        is_head_value(input.forwarding.x_forwarded_host),
        isolated ==> is_quoted_list(input.forwarding.forwarded) && is_quoted_list(
            input.forwarding.x_forwarded_for,
        ) && is_quoted_list(input.forwarding.x_forwarded_proto) && is_quoted_list(
            input.forwarding.x_forwarded_host,
        ),
    ensures
        head_bytes(input).len() <= 49152 ==> constructed(input, isolated) is Ok,
        head_bytes(input).len() > 49152 ==> constructed(input, isolated) == Err::<HeadModel, Fault>(
            Fault::LimitExceeded {
                limit: "canonical_head_bytes"@,
                max: 49152,
                actual: head_bytes(input).len() as int,
            },
        ),
{
    lemma_lower_tokens(input.method);
    lemma_origin_fits(input.target, segments, query);
    if isolated {
        let value = input.target.path_and_query;
        lemma_isolated_target(value, 0, path_end(value));
    }
    lemma_head_hosts(input.authority.host);
    assert forall|i: int| 0 <= i < input.headers.fields.len() implies is_head_field(
        #[trigger] input.headers.fields[i],
    ) by {
        let field = input.headers.fields[i];
        assert(is_uncapital(field.name));
        lemma_head_fields(field);
    }
    assert forall|i: int| 0 <= i < input.headers.removed_names.len() implies is_lower_token(
        #[trigger] input.headers.removed_names[i],
        128,
    ) by {
        lemma_lower_names(input.headers.removed_names[i]);
    }
    assert(strictly_sorted(input.headers.removed_names));
    assert(are_head_fields(input.headers));
    lemma_head_value(input.forwarding.forwarded, isolated);
    lemma_head_value(input.forwarding.x_forwarded_for, isolated);
    lemma_head_value(input.forwarding.x_forwarded_proto, isolated);
    lemma_head_value(input.forwarding.x_forwarded_host, isolated);
}

proof fn lemma_lower_tokens(s: Seq<u8>)
    requires
        is_method(s),
        is_uncapital(s),
    ensures
        is_lower_token(s, 32),
{
    lemma_uncapital(s);
    assert forall|i: int| 0 <= i < s.len() implies ByteClass::Token.has(#[trigger] s[i]) by {}
}

proof fn lemma_lower_names(s: Seq<u8>)
    requires
        is_name(s),
        is_uncapital(s),
    ensures
        is_lower_token(s, 128),
{
    lemma_uncapital(s);
    assert forall|i: int| 0 <= i < s.len() implies ByteClass::Token.has(#[trigger] s[i]) by {}
}

proof fn lemma_origin_fits(
    target: TargetModel,
    segments: Seq<Seq<Piece>>,
    query: Option<Seq<Piece>>,
)
    requires
        target.form is Origin,
        target.scheme is None,
        target.authority is None,
        are_segments(segments),
        is_query(query),
        forall|k: int|
            0 <= k < segments.len() ==> normal(#[trigger] segments[k]) != seq![0x2eu8] && normal(
                segments[k],
            ) != seq![0x2eu8, 0x2eu8],
        path_spelling(segments).len() + query_spelling(query).len() <= 8192,
        target.routing_path == seq![0x2fu8] + with_between(normal_segments(segments), 0x2f),
        target.path_and_query == target.routing_path + normal_query(query),
    ensures
        path_fits(target, false),
{
    let line = RequestLineModel {
        method: utf8("get"@),
        target: path_spelling(segments) + query_spelling(query),
        version: HttpVersion::Http11,
        bytes_consumed: 0,
    };
    reveal_strlit("get");
    reveal_strlit("connect");
    lemma_ascii_literal("get"@);
    lemma_ascii_literal("connect"@);
    assert(lowered(utf8("get"@)).len() == 3);
    assert(utf8("connect"@).len() == 7);
    lemma_origin_target_is_read(line, segments, query, true, true);
    lemma_normalized_is_wire(line, Seq::empty(), true, true);
    assert(normalized(line, true, true) == Ok::<TargetModel, Fault>(target));
}

/// A request has no head where its method is not a token without capitals of at most 32 bytes,
/// its host is none that a head names or its port is zero, its fields are more than 128 or one of
/// them may not be passed on, its length is above 16777216, or its path and query do not begin
/// with a slash or hold a byte that is not visible, a number sign or a backslash.
pub proof fn lemma_requests_without_heads(input: HeadInput, isolated: bool)
    ensures
        ({
            let value = input.target.path_and_query;
            let unfit = {
                ||| !is_method(input.method) || !is_uncapital(input.method)
                ||| !is_head_host(input.authority.host) || input.authority.port == Some(0u16)
                ||| input.headers.fields.len() > 128
                ||| exists|i: int|
                    0 <= i < input.headers.fields.len() && ({
                        let field = #[trigger] input.headers.fields[i];
                        ||| !is_name(field.name) || !is_uncapital(field.name) || !is_value(
                            field.value,
                        )
                        ||| field.name == utf8("proxy-connection"@)
                        ||| field.name == utf8("keep-alive"@)
                        ||| field.name == utf8("te"@)
                        ||| field.name == utf8("trailer"@)
                        ||| field.name == utf8("upgrade"@)
                        ||| field.name == utf8("proxy-authenticate"@)
                        ||| field.name == utf8("proxy-authorization"@)
                    })
                ||| input.framing matches BodyFraming::ContentLength(length) && length > 16777216
                ||| value.len() == 0 || value.len() > 8192 || value[0] != 0x2f
                ||| exists|i: int|
                    0 <= i < value.len() && (#[trigger] value[i] < 0x21 || value[i] > 0x7e
                        || value[i] == 0x23 || value[i] == 0x5c)
                ||| input.target.form is Asterisk || input.target.form is Authority
            };
            unfit ==> constructed(input, isolated) == Err::<HeadModel, Fault>(
                Fault::SerializationInvariant,
            )
        }),
{
    let value = input.target.path_and_query;
    lemma_head_hosts(input.authority.host);
    assert(is_lower_token(input.method, 32) ==> is_method(input.method) && is_uncapital(
        input.method,
    )) by {
        lemma_uncapital(input.method);
        if is_lower_token(input.method, 32) {
            assert forall|i: int| 0 <= i < input.method.len() implies ByteClass::Token.has(
                #[trigger] input.method[i],
            ) by {}
        }
    }
    if exists|i: int|
        0 <= i < value.len() && (#[trigger] value[i] < 0x21 || value[i] > 0x7e || value[i] == 0x23
            || value[i] == 0x5c) {
        let i = choose|i: int|
            0 <= i < value.len() && (#[trigger] value[i] < 0x21 || value[i] > 0x7e || value[i]
                == 0x23 || value[i] == 0x5c);
        lemma_byte_not_in_target(value, 0, i, path_end(value));
        lemma_byte_not_in_target(value, 0, i, value.len() as int);
    }
    if are_head_fields(input.headers) {
        assert forall|i: int| 0 <= i < input.headers.fields.len() implies {
            let field = #[trigger] input.headers.fields[i];
            &&& is_name(field.name) && is_uncapital(field.name) && is_value(field.value)
            &&& field.name != utf8("proxy-connection"@)
            &&& field.name != utf8("keep-alive"@)
            &&& field.name != utf8("te"@)
            &&& field.name != utf8("trailer"@)
            &&& field.name != utf8("upgrade"@)
            &&& field.name != utf8("proxy-authenticate"@)
            &&& field.name != utf8("proxy-authorization"@)
        } by {
            lemma_head_fields(input.headers.fields[i]);
        }
    }
}

proof fn lemma_byte_not_in_target(s: Seq<u8>, i: int, k: int, upto: int)
    requires
        0 <= i <= k < s.len(),
        s[k] < 0x21 || s[k] > 0x7e || s[k] == 0x23 || s[k] == 0x5c,
    ensures
        !is_wire_target(s, i, upto),
    decreases s.len() - i,
{
    if s[i] == '%' as u8 {
        if i + 3 <= k {
            lemma_byte_not_in_target(s, i + 3, k, upto);
        }
    } else if i < k {
        lemma_byte_not_in_target(s, i + 1, k, upto);
    }
}

proof fn lemma_state_of_prefix(s: Seq<u8>, t: Seq<u8>, i: int)
    requires
        0 <= i <= s.len(),
    ensures
        quote_state(s + t, i) == quote_state(s, i),
    decreases i,
{
    if i > 0 {
        lemma_state_of_prefix(s, t, i - 1);
        assert((s + t)[i - 1] == s[i - 1]);
    }
}

/// Quotes in a list keep what is between them together: behind a part that ends outside of quotes
/// stand a quoted string and what follows, and no comma between the quotes ends a member. Outside
/// of quotes every comma does.
pub proof fn lemma_quotes_keep_together(before: Seq<u8>, bytes: Seq<QuotedByte>, after: Seq<u8>)
    requires
        quote_state(before, before.len() as int) == QuoteState::Outside,
        is_quoting(bytes),
    ensures
        ({
            let whole = before + (seq![0x22u8] + in_quotes(bytes) + seq![0x22u8] + after);
            let start = before.len() as int;
            let end = start + in_quotes(bytes).len() + 2;
            &&& quote_state(Seq::empty(), 0) == QuoteState::Outside
            &&& quote_state(whole, end) == QuoteState::Outside
            &&& forall|i: int| start <= i < end ==> !#[trigger] is_member_edge(whole, i)
            &&& after.len() > 0 && after[0] == 0x2c ==> is_member_edge(whole, end)
            &&& after.len() > 0 && after[0] != 0x2c ==> !is_member_edge(whole, end)
            &&& after.len() > 0 && after[0] != 0x22 ==> quote_state(whole, end + 1)
                == QuoteState::Outside
        }),
{
    let quoted = in_quotes(bytes);
    let tail = seq![0x22u8] + quoted + seq![0x22u8] + after;
    let whole = before + tail;
    let start = before.len() as int;
    let m = quoted.len() as int;
    lemma_state_of_prefix(before, tail, start);
    assert(whole[start] == 0x22);
    assert(quote_state(whole, start + 1) == QuoteState::Inside);
    assert(whole.skip(start + 1) =~= quoted + (seq![0x22u8] + after));
    lemma_inside(whole, start + 1, bytes, seq![0x22u8] + after);
    assert(whole[start + 1 + m] == 0x22);
    assert(quote_state(whole, start + m + 2) == QuoteState::Outside);
    assert forall|i: int| start <= i < start + m + 2 implies !#[trigger] is_member_edge(
        whole,
        i,
    ) by {
        if start + 1 <= i {
            assert(quote_state(whole, i) != QuoteState::Outside);
        }
    }
    if after.len() > 0 {
        assert(whole[start + m + 2] == after[0]);
    }
}

proof fn lemma_inside(s: Seq<u8>, i: int, bytes: Seq<QuotedByte>, tail: Seq<u8>)
    requires
        0 <= i <= s.len(),
        s.skip(i) == in_quotes(bytes) + tail,
        quote_state(s, i) == QuoteState::Inside,
        is_quoting(bytes),
    ensures
        quote_state(s, i + in_quotes(bytes).len()) == QuoteState::Inside,
        forall|j: int|
            i <= j <= i + in_quotes(bytes).len() ==> #[trigger] quote_state(s, j)
                != QuoteState::Outside,
    decreases bytes.len(),
{
    let rest = s.skip(i);
    assert(rest.len() == s.len() - i);
    if bytes.len() > 0 {
        let later = bytes.skip(1);
        let b = bytes[0];
        assert forall|k: int| 0 <= k < later.len() implies {
            let b = #[trigger] later[k];
            (b.escaped || b.byte != 0x22 && b.byte != 0x5c) && 0x20 <= b.byte && b.byte != 0x7f
        } by {
            assert(later[k] == bytes[k + 1]);
        }
        if b.escaped {
            assert(rest =~= seq![0x5cu8, b.byte] + (in_quotes(later) + tail));
            assert(s[i] == rest[0]);
            assert(s[i + 1] == rest[1]);
            assert(quote_state(s, i + 1) == QuoteState::AfterBackslash);
            assert(quote_state(s, i + 2) == QuoteState::Inside);
            assert(s.skip(i + 2) =~= rest.skip(2));
            assert(s.skip(i + 2) =~= in_quotes(later) + tail);
            lemma_inside(s, i + 2, later, tail);
        } else {
            assert(rest =~= seq![b.byte] + (in_quotes(later) + tail));
            assert(s[i] == rest[0]);
            assert(quote_state(s, i + 1) == QuoteState::Inside);
            assert(s.skip(i + 1) =~= rest.skip(1));
            assert(s.skip(i + 1) =~= in_quotes(later) + tail);
            lemma_inside(s, i + 1, later, tail);
        }
    }
}

} // verus!
