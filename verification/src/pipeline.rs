//! The operations one after the other: what one accepts, the next can use.

use vstd::prelude::*;
use crate::authority::{
    host_value, only_host_any_case, reconciled, reconciled_in_phases, reconciled_leniently,
    scheme_default, settled, shaped,
};
use crate::body_framing::{framing, lemma_length_in_range};
use crate::bytes::{
    ByteClass, all_in, any_in, first_in, is_lower, is_upper, is_visible, lemma_first_in,
    lemma_first_in_unique, lowered, split, to_lower,
};
use crate::canonical_head::{
    HEAD_LIMIT, HeadInput, are_head_fields, are_wire_values, constructed, effective_host,
    form_fits, head_bytes, head_too_long, is_head_field, is_lower_token, is_wire_dns,
    is_wire_ipv6, is_wire_target, is_wire_value, path_fits, target_endpoint,
};
use crate::decimal::{digits_of, lemma_digits_of};
use crate::forwarding::{
    FORWARDING_VALUE_LIMIT, ForwardingRules, additions, applied, client_node, field_fault,
    first_over, gathered, is_blank, is_plain, is_plain_byte, joined_all, lemma_additions_plain,
    lemma_joined_is_list, no_slots, placed, slot_of,
};
use crate::header::{NAME_MAX, lemma_parsed_section, well_formed_field};
use crate::hex::hexadecimal;
use crate::hop_by_hop::{
    connection, contributes, is_fixed, is_nomination, lemma_removed_names_listed, lemma_survivors,
    lemma_survivors_are_end_to_end, member, rejected_at, removes, sanitized, survivors,
    valid_connection,
};
use crate::host::{
    endpoint, is_dns_label, is_dns_name, lemma_dns_name_bytes, port_number, without_final_dot,
};
use crate::ip::{
    double_colon, group_segments, ipv6_segments, is_group, is_ipv4, is_ipv6, is_ipv6_byte,
    lemma_ipv4_bytes, lemma_ipv6_bytes, list_segments,
};
use crate::ip_round_trip::{lemma_split_push, lemma_split_whole};
use crate::request_line::lemma_parsed_parts;
use crate::request_target::{
    authority_end, canonical_from, escape_of, escape_reason, escaped_byte, lacks, lemma_envelope,
    lemma_escape_of, lemma_path_after_authority, lemma_path_canonical, lemma_scheme_len,
    normalized, path_after_authority, path_end, path_of, query_of, scheme_of, spelled,
};
use crate::route::{has_dot_segment, is_unreserved};
use crate::types::{
    AuthorityModel, Fault, FieldModel, ForwardingModel, HeadModel, PolicyModel, RequestLineModel,
    TargetForm, TargetModel,
};

verus! {

proof fn lemma_lowered_at(s: Seq<u8>)
    ensures
        lowered(s).len() == s.len(),
        forall|i: int| 0 <= i < s.len() ==> #[trigger] lowered(s)[i] == to_lower(s[i]),
        !any_in(lowered(s), ByteClass::Upper),
{
}

/// To split a text in lower case is to split it and take the pieces in lower case.
proof fn lemma_lowered_split(s: Seq<u8>, separator: u8)
    requires
        !is_lower(separator),
        !is_upper(separator),
    ensures
        split(lowered(s), separator).len() == split(s, separator).len(),
        forall|k: int|
            0 <= k < split(s, separator).len() ==> #[trigger] split(lowered(s), separator)[k]
                == lowered(split(s, separator)[k]),
    decreases s.len(),
{
    let only = ByteClass::Only(separator);
    let low = lowered(s);
    lemma_first_in(s, only);
    let i = first_in(s, only);
    assert forall|j: int| 0 <= j < s.len() implies only.has(#[trigger] low[j]) == only.has(s[j]) by {}
    assert forall|j: int| 0 <= j < i implies !only.has(#[trigger] low[j]) by {
        assert(!only.has(s[j]));
    }
    if i < s.len() {
        assert(only.has(low[i]));
    }
    lemma_first_in_unique(low, only, i);
    if i < s.len() {
        let rest = s.skip(i + 1);
        lemma_lowered_split(rest, separator);
        assert(low.skip(i + 1) =~= lowered(rest));
        assert(low.take(i) =~= lowered(s.take(i)));
        let pieces = split(s, separator);
        let lows = split(low, separator);
        assert(pieces =~= seq![s.take(i)] + split(rest, separator));
        assert(lows =~= seq![low.take(i)] + split(lowered(rest), separator));
        assert forall|k: int| 0 <= k < pieces.len() implies #[trigger] lows[k] == lowered(
            pieces[k],
        ) by {
            if k > 0 {
                assert(lows[k] == split(lowered(rest), separator)[k - 1]);
            }
        }
    }
}

proof fn lemma_lowered_number(digits: Seq<u8>)
    ensures
        hexadecimal(lowered(digits)) == hexadecimal(digits),
    decreases digits.len(),
{
    if digits.len() > 0 {
        lemma_lowered_number(digits.drop_last());
        assert(lowered(digits).drop_last() =~= lowered(digits.drop_last()));
    }
}

proof fn lemma_lowered_group(group: Seq<u8>)
    ensures
        is_group(lowered(group)) == is_group(group),
        hexadecimal(lowered(group)) == hexadecimal(group),
        is_ipv4(group) ==> lowered(group) == group,
{
    lemma_lowered_number(group);
    let low = lowered(group);
    assert forall|i: int| 0 <= i < group.len() implies ByteClass::Hex.has(#[trigger] low[i])
        == ByteClass::Hex.has(group[i]) by {}
    if is_group(group) {
        assert forall|i: int| 0 <= i < low.len() implies ByteClass::Hex.has(#[trigger] low[i]) by {
            assert(ByteClass::Hex.has(group[i]));
        }
    }
    if is_group(low) {
        assert forall|i: int| 0 <= i < group.len() implies ByteClass::Hex.has(
            #[trigger] group[i],
        ) by {
            assert(ByteClass::Hex.has(low[i]));
        }
    }
    if is_ipv4(group) {
        lemma_ipv4_bytes(group);
        assert(low =~= group);
    }
}

proof fn lemma_lowered_groups(
    groups: Seq<Seq<u8>>,
    lows: Seq<Seq<u8>>,
    from: int,
    quad: bool,
)
    requires
        0 <= from,
        lows.len() == groups.len(),
        forall|k: int| 0 <= k < groups.len() ==> #[trigger] lows[k] == lowered(groups[k]),
        group_segments(groups, from, quad) is Some,
    ensures
        group_segments(lows, from, quad) == group_segments(groups, from, quad),
    decreases groups.len() - from,
{
    if from < groups.len() {
        lemma_lowered_group(groups[from]);
        assert(lows[from] == lowered(groups[from]));
        if is_group(groups[from]) {
            lemma_lowered_groups(groups, lows, from + 1, quad);
        }
    }
}

proof fn lemma_lowered_list(s: Seq<u8>, quad: bool)
    requires
        list_segments(s, quad) is Some,
    ensures
        list_segments(lowered(s), quad) == list_segments(s, quad),
{
    if s.len() > 0 {
        lemma_lowered_split(s, ':' as u8);
        lemma_lowered_groups(split(s, ':' as u8), split(lowered(s), ':' as u8), 0, quad);
    }
}

proof fn lemma_lowered_gap(s: Seq<u8>, from: int)
    requires
        0 <= from,
    ensures
        double_colon(lowered(s), from) == double_colon(s, from),
        double_colon(s, from) < s.len() ==> from <= double_colon(s, from) && double_colon(s, from)
            + 2 <= s.len(),
    decreases s.len() - from,
{
    if from + 1 < s.len() {
        assert(lowered(s)[from] == to_lower(s[from]));
        assert(lowered(s)[from + 1] == to_lower(s[from + 1]));
        lemma_lowered_gap(s, from + 1);
    }
}

/// The case of the digits of an IPv6 address does not matter.
pub proof fn lemma_ipv6_any_case(s: Seq<u8>)
    requires
        is_ipv6(s),
    ensures
        ipv6_segments(lowered(s)) == ipv6_segments(s),
{
    let gap = double_colon(s, 0);
    lemma_lowered_gap(s, 0);
    if gap >= s.len() {
        lemma_lowered_list(s, true);
    } else {
        assert(lowered(s).take(gap) =~= lowered(s.take(gap)));
        assert(lowered(s).skip(gap + 2) =~= lowered(s.skip(gap + 2)));
        lemma_lowered_list(s.take(gap), false);
        lemma_lowered_list(s.skip(gap + 2), true);
    }
}

proof fn lemma_lowered_dns(s: Seq<u8>)
    requires
        is_dns_name(s),
    ensures
        is_wire_dns(lowered(s)),
{
    lemma_lowered_at(s);
    lemma_lowered_split(s, '.' as u8);
    let labels = split(s, '.' as u8);
    let lows = split(lowered(s), '.' as u8);
    assert forall|k: int| 0 <= k < lows.len() implies is_dns_label(#[trigger] lows[k]) by {
        assert(is_dns_label(labels[k]));
        let label = labels[k];
        assert(lows[k] == lowered(label));
        assert forall|i: int| 0 <= i < label.len() implies ByteClass::Label.has(
            #[trigger] lowered(label)[i],
        ) by {
            assert(ByteClass::Label.has(label[i]));
        }
        assert(lowered(label).last() == to_lower(label.last()));
    }
}

/// A DNS name has neither a colon nor a bracket in it, and no dot at its end.
proof fn lemma_dns_shape(s: Seq<u8>)
    requires
        is_dns_name(s),
    ensures
        !any_in(s, ByteClass::Only(':' as u8)),
        s[0] != '[' as u8,
        s.last() != '.' as u8,
{
    lemma_dns_name_bytes(s);
    assert forall|i: int| 0 <= i < s.len() implies #[trigger] s[i] != ':' as u8 && s[i]
        != '[' as u8 by {
        assert(ByteClass::Label.has(s[i]) || s[i] == '.' as u8);
    }
    if s.last() == '.' as u8 {
        let front = s.drop_last();
        let empty = Seq::<u8>::empty();
        assert(s =~= front + seq!['.' as u8] + empty);
        lemma_split_push(front, '.' as u8, empty);
        let labels = split(s, '.' as u8);
        assert(labels[labels.len() - 1] == empty);
        assert(is_dns_label(labels[labels.len() - 1]));
    }
}

/// Whether an authority is in canonical form: a host that can be serialized, in lower case, and a
/// port that is not zero.
pub open spec fn is_canonical(named: AuthorityModel) -> bool {
    &&& effective_host(named) is Some
    &&& named.port != Some(0u16)
    &&& lowered(named.host) == named.host
    &&& named.host.len() > 0
    &&& if named.host[0] == '[' as u8 {
        &&& named.host.len() >= 2
        &&& named.host.last() == ']' as u8
        &&& is_wire_ipv6(named.host.subrange(1, named.host.len() - 1))
    } else {
        is_wire_dns(named.host)
    }
}

/// An endpoint that was read is in canonical form.
proof fn lemma_endpoint_is_canonical(raw: Seq<u8>)
    requires
        endpoint(raw) is Some,
    ensures
        is_canonical(endpoint(raw).unwrap()),
{
    let named = endpoint(raw).unwrap();
    if raw.len() > 0 && raw[0] == '[' as u8 {
        let close = first_in(raw, ByteClass::Only(']' as u8));
        lemma_first_in(raw, ByteClass::Only(']' as u8));
        let inner = raw.subrange(1, close);
        let spelled_host = raw.take(close + 1);
        lemma_ipv6_any_case(inner);
        lemma_lowered_at(inner);
        lemma_lowered_at(spelled_host);
        assert(named.host == lowered(spelled_host));
        assert(named.host.subrange(1, named.host.len() - 1) =~= lowered(inner));
        assert(named.host[0] == '[' as u8);
        assert(named.host.last() == ']' as u8);
    } else {
        let colon = first_in(raw, ByteClass::Only(':' as u8));
        lemma_first_in(raw, ByteClass::Only(':' as u8));
        let name = without_final_dot(raw.take(colon));
        lemma_lowered_dns(name);
        lemma_dns_shape(lowered(name));
    }
    assert(lowered(named.host) =~= named.host);
}

/// The spelling of an authority in canonical form names it, on either way of reading it.
pub proof fn lemma_spelling_reads(named: AuthorityModel)
    requires
        is_canonical(named),
    ensures
        endpoint(spelled(named)) == Some(named),
        target_endpoint(spelled(named), false) == Some((effective_host(named).unwrap(), named.port)),
{
    let host = named.host;
    let text = spelled(named);
    if let Some(port) = named.port {
        lemma_digits_of(port as nat);
        assert(text =~= host + seq![':' as u8] + digits_of(port as nat));
        assert(port_number(digits_of(port as nat)) == Some(port));
    }
    if host[0] == '[' as u8 {
        let inner = host.subrange(1, host.len() - 1);
        let close = host.len() - 1;
        lemma_ipv6_bytes(inner);
        let only = ByteClass::Only(']' as u8);
        assert forall|j: int| 0 <= j < close implies !only.has(#[trigger] text[j]) by {
            if j > 0 {
                assert(is_ipv6_byte(inner[j - 1]));
                assert(text[j] == inner[j - 1]);
            }
        }
        assert(text[close] == host[close]);
        lemma_first_in_unique(text, only, close);
        assert(text.subrange(1, close) =~= inner);
        assert(text.take(close + 1) =~= host);
        let rest = text.skip(close + 1);
        if let Some(port) = named.port {
            assert(rest[0] == ':' as u8);
            assert(rest.skip(1) =~= digits_of(port as nat));
        } else {
            assert(rest.len() == 0);
        }
    } else {
        lemma_dns_shape(host);
        let only = ByteClass::Only(':' as u8);
        assert forall|j: int| 0 <= j < host.len() implies !only.has(#[trigger] text[j]) by {
            assert(text[j] == host[j]);
            assert(!only.has(host[j]));
        }
        lemma_first_in_unique(text, only, host.len() as int);
        assert(text.take(host.len() as int) =~= host);
        assert(text[0] == host[0]);
        assert(without_final_dot(host) == host);
        if let Some(port) = named.port {
            assert(text.skip(host.len() as int + 1) =~= digits_of(port as nat));
        }
    }
}

proof fn lemma_settled_is_canonical(
    from_target: Option<Seq<u8>>,
    from_header: Option<Seq<u8>>,
    default: Option<u16>,
)
    ensures
        settled(from_target, from_header, default) matches Ok(authority) ==> is_canonical(authority),
{
    if let Some(text) = from_target {
        if endpoint(text) is Some {
            lemma_endpoint_is_canonical(text);
        }
    }
    if let Some(text) = from_header {
        if endpoint(text) is Some {
            lemma_endpoint_is_canonical(text);
        }
    }
}

/// The authority of a request is in canonical form, in whatever way it was reconciled: it can be
/// serialized, and to read its spelling gives it back.
pub proof fn lemma_reconciled_is_canonical(target: TargetModel, fields: Seq<FieldModel>)
    ensures
        reconciled(target, fields) matches Ok(authority) ==> is_canonical(authority) && endpoint(
            spelled(authority),
        ) == Some(authority),
        reconciled_in_phases(target, fields) matches Ok(authority) ==> is_canonical(authority)
            && endpoint(spelled(authority)) == Some(authority),
        reconciled_leniently(target, fields) matches Ok(authority) ==> is_canonical(authority)
            && endpoint(spelled(authority)) == Some(authority),
{
    if let Ok(authority) = reconciled(target, fields) {
        let host = host_value(fields)->Ok_0;
        lemma_settled_is_canonical(target.authority, host, shaped(target).unwrap());
        lemma_spelling_reads(authority);
    }
    if let Ok(authority) = reconciled_leniently(target, fields) {
        let host = only_host_any_case(fields, 0, None)->Ok_0;
        lemma_settled_is_canonical(target.authority, host, scheme_default(target));
        lemma_spelling_reads(authority);
    }
}

/// A component with canonical escapes can be serialized.
proof fn lemma_component_is_wire(s: Seq<u8>, i: int, upto: int, in_path: bool)
    requires
        0 <= i <= s.len(),
        canonical_from(s, i) == s.skip(i),
        escape_reason(s, i, in_path, false) is None,
        all_in(s, ByteClass::Visible),
        lacks(s, 0, s.len() as int, '#' as u8),
        lacks(s, 0, s.len() as int, '\\' as u8),
        in_path || upto <= 0,
    ensures
        is_wire_target(s, i, upto),
    decreases s.len() - i,
{
    if i < s.len() {
        assert(ByteClass::Visible.has(s[i]));
        let rest = s.skip(i);
        assert(rest[0] == s[i]);
        if s[i] == '%' as u8 {
            let b = escaped_byte(s, i);
            let e = escape_of(b);
            lemma_escape_of(b);
            assert(rest[0] == e[0]);
            assert(!is_unreserved(b));
            assert(rest[1] == e[1] && rest[2] == e[2]);
            assert(rest[1] == s[i + 1] && rest[2] == s[i + 2]);
            assert(canonical_from(s, i + 3) =~= rest.skip(3));
            assert(rest.skip(3) =~= s.skip(i + 3));
            lemma_component_is_wire(s, i + 3, upto, in_path);
        } else {
            assert(canonical_from(s, i + 1) =~= rest.skip(1));
            assert(rest.skip(1) =~= s.skip(i + 1));
            lemma_component_is_wire(s, i + 1, upto, in_path);
        }
    }
}

proof fn lemma_wire_shifts(a: Seq<u8>, b: Seq<u8>, i: int)
    requires
        0 <= i,
        is_wire_target(b, i, 0),
    ensures
        is_wire_target(a + b, a.len() + i, a.len() as int),
    decreases b.len() - i,
{
    let whole = a + b;
    if i < b.len() {
        assert(whole[a.len() + i] == b[i]);
        if b[i] == '%' as u8 {
            assert(whole[a.len() + i + 1] == b[i + 1]);
            assert(whole[a.len() + i + 2] == b[i + 2]);
            lemma_wire_shifts(a, b, i + 3);
        } else {
            lemma_wire_shifts(a, b, i + 1);
        }
    }
}

proof fn lemma_wire_concat(a: Seq<u8>, b: Seq<u8>, i: int)
    requires
        0 <= i <= a.len(),
        is_wire_target(a, i, a.len() as int),
        is_wire_target(b, 0, 0),
    ensures
        is_wire_target(a + b, i, a.len() as int),
    decreases a.len() - i,
{
    let whole = a + b;
    if i < a.len() {
        assert(whole[i] == a[i]);
        if a[i] == '%' as u8 {
            assert(whole[i + 1] == a[i + 1]);
            assert(whole[i + 2] == a[i + 2]);
            lemma_wire_concat(a, b, i + 3);
        } else {
            lemma_wire_concat(a, b, i + 1);
        }
    } else {
        lemma_wire_shifts(a, b, 0);
    }
}

/// A normalized path with its query can be serialized.
proof fn lemma_path_is_wire(value: Seq<u8>, query_first: bool)
    requires
        value.len() > 0,
        value[0] == '/' as u8,
        all_in(value, ByteClass::Visible),
        lacks(value, 0, value.len() as int, '#' as u8),
        lacks(value, 0, value.len() as int, '\\' as u8),
    ensures
        path_of(value, query_first) matches Ok((path_and_query, routing_path)) ==> {
            &&& path_and_query.len() > 0
            &&& path_and_query.len() <= value.len()
            &&& path_and_query[0] == '/' as u8
            &&& routing_path == path_and_query.take(path_end(path_and_query))
            &&& is_wire_target(path_and_query, 0, path_end(path_and_query))
            &&& !has_dot_segment(routing_path)
        },
{
    lemma_path_canonical(value, query_first);
    if let Ok((path_and_query, routing_path)) = path_of(value, query_first) {
        let end = path_end(path_and_query);
        assert forall|j: int| 0 <= j < routing_path.len() implies {
            let x = #[trigger] routing_path[j];
            is_visible(x) && x != '#' as u8 && x != '\\' as u8
        } by {
            assert(routing_path[j] == path_and_query[j]);
            assert(ByteClass::Visible.has(path_and_query[j]));
        }
        assert(routing_path.skip(0) =~= routing_path);
        lemma_component_is_wire(routing_path, 0, end, true);
        if let Some(query) = query_of(path_and_query) {
            lemma_first_in(path_and_query, ByteClass::Only('?' as u8));
            assert forall|j: int| 0 <= j < query.len() implies {
                let x = #[trigger] query[j];
                is_visible(x) && x != '#' as u8 && x != '\\' as u8
            } by {
                assert(query[j] == path_and_query[end + 1 + j]);
                assert(ByteClass::Visible.has(path_and_query[end + 1 + j]));
            }
            assert(query.skip(0) =~= query);
            lemma_component_is_wire(query, 0, 0, false);
            let mark = seq!['?' as u8];
            assert(mark + query =~= path_and_query.skip(end));
            assert(is_wire_target(mark, 1, 1));
            assert(is_wire_target(mark, 0, 1));
            lemma_mark_then_query(query);
            lemma_wire_concat(routing_path, mark + query, 0);
            assert(routing_path + (mark + query) =~= path_and_query);
        } else {
            assert(routing_path =~= path_and_query);
        }
    }
}

proof fn lemma_mark_then_query(query: Seq<u8>)
    requires
        is_wire_target(query, 0, 0),
    ensures
        is_wire_target(seq!['?' as u8] + query, 0, 0),
{
    let mark = seq!['?' as u8];
    lemma_wire_shifts_plain(mark, query, 0);
    assert((mark + query)[0] == '?' as u8);
}

proof fn lemma_wire_shifts_plain(a: Seq<u8>, b: Seq<u8>, i: int)
    requires
        0 <= i,
        is_wire_target(b, i, 0),
    ensures
        is_wire_target(a + b, a.len() + i, 0),
    decreases b.len() - i,
{
    let whole = a + b;
    if i < b.len() {
        assert(whole[a.len() + i] == b[i]);
        if b[i] == '%' as u8 {
            assert(whole[a.len() + i + 1] == b[i + 1]);
            assert(whole[a.len() + i + 2] == b[i + 2]);
            lemma_wire_shifts_plain(a, b, i + 3);
        } else {
            lemma_wire_shifts_plain(a, b, i + 1);
        }
    }
}

/// Whether a target goes upstream: one in origin form or in absolute form.
pub open spec fn goes_upstream(target: TargetModel) -> bool {
    target.form == TargetForm::Origin || target.form == TargetForm::Absolute
}

/// A normalized target can be serialized with the authority that was reconciled with it.
pub proof fn lemma_normalized_is_wire(
    line: RequestLineModel,
    fields: Seq<FieldModel>,
    in_order: bool,
    query_first: bool,
)
    ensures
        normalized(line, in_order, query_first) matches Ok(target) ==> (goes_upstream(target) ==> {
            &&& path_fits(target, false)
            &&& (reconciled(target, fields) matches Ok(authority) ==> form_fits(
                target,
                authority,
                false,
            ))
        }),
{
    lemma_envelope(line.target, in_order);
    if let Ok(target) = normalized(line, in_order, query_first) {
        if line.target[0] == '/' as u8 {
            lemma_path_is_wire(line.target, query_first);
        } else if let Some((scheme, start)) = scheme_of(line.target) {
            lemma_scheme_len(line.target);
            let remainder = line.target.skip(start);
            lemma_path_after_authority(line.target, start);
            lemma_path_is_wire(path_after_authority(remainder), query_first);
            let raw = remainder.subrange(0, authority_end(remainder));
            lemma_endpoint_is_canonical(raw);
            lemma_spelling_reads(endpoint(raw).unwrap());
            assert(target.authority == Some(spelled(endpoint(raw).unwrap())));
        }
    }
}

/// What has been parsed and sanitized can be serialized, where no removed name is longer than a
/// field's name can be.
pub proof fn lemma_sanitized_is_wire(input: Seq<u8>)
    ensures
        crate::header::parsed(input) matches Ok(block) ==> (sanitized(block.fields) matches Ok(
            headers,
        ) ==> ((forall|i: int|
            0 <= i < headers.removed_names.len() ==> (#[trigger] headers.removed_names[i]).len()
                <= NAME_MAX) ==> are_head_fields(headers))),
{
    lemma_parsed_section(input);
    if let Ok(block) = crate::header::parsed(input) {
        let fields = block.fields;
        if let Ok(headers) = sanitized(fields) {
            let n = fields.len() as int;
            lemma_survivors(fields, n);
            lemma_survivors_fewer(fields, n);
            assert forall|k: int| 0 <= k < headers.fields.len() implies is_head_field(
                #[trigger] headers.fields[k],
            ) by {
                lemma_survivors_are_end_to_end(fields, k);
                let i = choose|i: int|
                    0 <= i < n && survivors(fields, n)[k] == fields[i] && !removes(
                        fields,
                        n,
                        fields[i].name,
                    );
                assert(well_formed_field(fields[i]));
                lemma_lowered_at(fields[i].name);
            }
            lemma_removed_names_listed(fields);
            if forall|i: int|
                0 <= i < headers.removed_names.len() ==> (#[trigger] headers.removed_names[i]).len()
                    <= NAME_MAX {
                assert forall|k: int| 0 <= k < headers.removed_names.len() implies is_lower_token(
                    #[trigger] headers.removed_names[k],
                    NAME_MAX as int,
                ) by {
                    let name = headers.removed_names[k];
                    assert(headers.removed_names.contains(name));
                    lemma_removed_is_token(fields, name);
                }
            }
        }
    }
}

proof fn lemma_survivors_fewer(fields: Seq<FieldModel>, upto: int)
    requires
        0 <= upto <= fields.len(),
    ensures
        survivors(fields, upto).len() <= upto,
    decreases upto,
{
    if upto > 0 {
        lemma_survivors_fewer(fields, upto - 1);
    }
}

proof fn lemma_not_rejected_at(fields: Seq<FieldModel>, from: int, i: int)
    requires
        0 <= from <= i < fields.len(),
        rejected_at(fields, from) is None,
        fields[i].name == connection(),
    ensures
        valid_connection(fields[i].value),
    decreases i - from,
{
    if from < i {
        lemma_not_rejected_at(fields, from + 1, i);
    }
}

proof fn lemma_removed_is_token(fields: Seq<FieldModel>, name: Seq<u8>)
    requires
        rejected_at(fields, 0) is None,
        removes(fields, fields.len() as int, name),
        forall|i: int| 0 <= i < fields.len() ==> well_formed_field(#[trigger] fields[i]),
    ensures
        name.len() > 0,
        all_in(name, ByteClass::Token),
        !any_in(name, ByteClass::Upper),
{
    let i = choose|i: int| 0 <= i < fields.len() && contributes(#[trigger] fields[i], name);
    assert(well_formed_field(fields[i]));
    if is_fixed(fields[i].name) && fields[i].name == name {
        lemma_lowered_at(name);
    } else {
        lemma_not_rejected_at(fields, 0, i);
        let value = fields[i].value;
        let j = choose|j: int|
            0 <= j < split(value, ',' as u8).len() && lowered(#[trigger] member(value, j)) == name;
        let nominated = member(value, j);
        assert(is_nomination(nominated));
        lemma_lowered_at(nominated);
        assert forall|k: int| 0 <= k < name.len() implies ByteClass::Token.has(#[trigger] name[k]) by {
            assert(ByteClass::Token.has(nominated[k]));
        }
    }
}

/// Whether an incoming value can be extended: a list that does not begin with a space.
spec fn is_incoming(value: Seq<u8>) -> bool {
    crate::forwarding::value_fault(value) is None && value.len() > 0 && value[0] != ' ' as u8
}

spec fn are_incoming(slots: Seq<Option<Seq<u8>>>) -> bool {
    &&& slots.len() == 4
    &&& forall|k: int|
        0 <= k < 4 ==> ((#[trigger] slots[k]) matches Some(value) ==> is_incoming(value))
}

proof fn lemma_gathered_incoming(
    fields: Seq<FieldModel>,
    from: int,
    slots: Seq<Option<Seq<u8>>>,
    rules: ForwardingRules,
)
    requires
        0 <= from,
        are_incoming(slots),
        forall|i: int| 0 <= i < fields.len() ==> well_formed_field(#[trigger] fields[i]),
    ensures
        gathered(fields, from, slots, rules) matches Ok(read) ==> are_incoming(read),
    decreases fields.len() - from,
{
    if from < fields.len() {
        match slot_of(fields[from].name, rules.any_case) {
            None => {
                lemma_gathered_incoming(fields, from + 1, slots, rules);
            },
            Some(slot) => {
                let value = fields[from].value;
                if field_fault(value, slots[slot] is Some, rules.repeat_first) is None {
                    assert(well_formed_field(fields[from]));
                    if value.len() == 0 {
                        lemma_split_whole(value, ',' as u8);
                        assert(is_blank(split(value, ',' as u8)[0]));
                    }
                    lemma_gathered_incoming(
                        fields,
                        from + 1,
                        slots.update(slot, Some(value)),
                        rules,
                    );
                }
            },
        }
    }
}

proof fn lemma_joined_is_wire(prior: Option<Seq<u8>>, addition: Seq<u8>)
    requires
        prior matches Some(value) ==> is_incoming(value),
        addition.len() > 0,
        is_plain(addition),
        crate::forwarding::joined(prior, addition).len() <= FORWARDING_VALUE_LIMIT,
    ensures
        is_wire_value(crate::forwarding::joined(prior, addition), false),
{
    let whole = crate::forwarding::joined(prior, addition);
    lemma_joined_is_list(prior, addition);
    assert(is_plain_byte(addition[0]));
    assert(is_plain_byte(addition[addition.len() - 1]));
    assert(whole.last() == addition.last());
    if let Some(value) = prior {
        assert(whole[0] == value[0]);
    }
}

proof fn lemma_first_over(values: Seq<Seq<u8>>, from: int, k: int)
    requires
        0 <= from <= k < values.len(),
        first_over(values, from) is None,
    ensures
        values[k].len() <= FORWARDING_VALUE_LIMIT,
    decreases k - from,
{
    if from < k {
        lemma_first_over(values, from + 1, k);
    }
}

/// The forwarding fields that a boundary makes of parsed fields can be serialized, whether it
/// trusts those that came in or not.
pub proof fn lemma_forwarding_is_wire(
    policy: PolicyModel,
    fields: Seq<FieldModel>,
    rules: ForwardingRules,
)
    requires
        forall|i: int| 0 <= i < fields.len() ==> well_formed_field(#[trigger] fields[i]),
    ensures
        applied(policy, fields, rules) matches Ok(result) ==> are_wire_values(result, false),
{
    if let Ok(result) = applied(policy, fields, rules) {
        let node = client_node(policy.client_ip, rules.client).unwrap();
        let added = additions(node, policy);
        lemma_additions_plain(policy, rules.client);
        let slots = if policy.trust_incoming {
            gathered(fields, 0, no_slots(), rules)->Ok_0
        } else {
            no_slots()
        };
        lemma_gathered_incoming(fields, 0, no_slots(), rules);
        let values = joined_all(slots, added);
        if !policy.trust_incoming {
            assert(values =~= added);
        }
        assert(placed(values) == Ok::<ForwardingModel, Fault>(result));
        assert forall|k: int| 0 <= k < 4 implies is_wire_value(#[trigger] values[k], false) by {
            lemma_first_over(values, 0, k);
            assert(is_plain(added[k]));
            assert(slots[k] matches Some(value) ==> is_incoming(value));
            lemma_joined_is_wire(slots[k], added[k]);
        }
        assert(result.forwarded == values[0]);
    }
}

/// A request that passes every stage can be serialized: the request line and the fields are parsed,
/// the target is normalized and goes upstream, the authority reconciled, the fields sanitized with
/// no removed name longer than the name of a field can be, the body framed, and the forwarding
/// fields made. A boundary that holds the parts against each other refuses such a head only where
/// it is too long.
pub proof fn lemma_request_goes_through(
    first: Seq<u8>,
    second: Seq<u8>,
    in_order: bool,
    query_first: bool,
    policy: PolicyModel,
    rules: ForwardingRules,
)
    requires
        crate::request_line::parsed(first) is Ok,
        crate::header::parsed(second) is Ok,
        normalized(crate::request_line::parsed(first)->Ok_0, in_order, query_first) is Ok,
        goes_upstream(
            normalized(crate::request_line::parsed(first)->Ok_0, in_order, query_first)->Ok_0,
        ),
        reconciled(
            normalized(crate::request_line::parsed(first)->Ok_0, in_order, query_first)->Ok_0,
            crate::header::parsed(second)->Ok_0.fields,
        ) is Ok,
        sanitized(crate::header::parsed(second)->Ok_0.fields) is Ok,
        forall|i: int|
            0 <= i < sanitized(crate::header::parsed(second)->Ok_0.fields)->Ok_0.removed_names.len()
                ==> (#[trigger] sanitized(
                crate::header::parsed(second)->Ok_0.fields,
            )->Ok_0.removed_names[i]).len() <= NAME_MAX,
        framing(crate::header::parsed(second)->Ok_0.fields) is Ok,
        applied(policy, crate::header::parsed(second)->Ok_0.fields, rules) is Ok,
    ensures
        ({
            let line = crate::request_line::parsed(first)->Ok_0;
            let fields = crate::header::parsed(second)->Ok_0.fields;
            let target = normalized(line, in_order, query_first)->Ok_0;
            let input = HeadInput {
                method: line.method,
                target,
                authority: reconciled(target, fields)->Ok_0,
                headers: sanitized(fields)->Ok_0,
                framing: framing(fields)->Ok_0,
                forwarding: applied(policy, fields, rules)->Ok_0,
            };
            constructed(input, false) == if head_bytes(input).len() <= HEAD_LIMIT {
                Ok::<HeadModel, Fault>(
                    HeadModel { bytes: head_bytes(input), body_framing: input.framing },
                )
            } else {
                Err::<HeadModel, Fault>(head_too_long(head_bytes(input).len() as int))
            }
        }),
{
    let line = crate::request_line::parsed(first)->Ok_0;
    let fields = crate::header::parsed(second)->Ok_0.fields;
    let target = normalized(line, in_order, query_first)->Ok_0;
    lemma_parsed_parts(first);
    lemma_lowered_at(line.method);
    lemma_normalized_is_wire(line, fields, in_order, query_first);
    lemma_reconciled_is_canonical(target, fields);
    lemma_sanitized_is_wire(second);
    lemma_parsed_section(second);
    lemma_length_in_range(fields);
    lemma_forwarding_is_wire(policy, fields, rules);
}

} // verus!
