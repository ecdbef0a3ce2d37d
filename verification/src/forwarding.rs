//! Producing the forwarding fields of an upstream request.

use vstd::prelude::*;
use crate::bytes::{
    ByteClass, all_bytes_in, all_in, is_digit, is_visible, lemma_first_from_unique,
    lemma_first_in, lemma_split_step, lowered, split, split_on,
};
use crate::decimal::clamped;
use crate::host::{endpoint, lemma_endpoint_bytes, parse_endpoint};
use crate::ip::{
    ipv6_segments, ipv6_text, is_ipv4, is_ipv4_text, is_ipv6_byte, lemma_ipv4_bytes,
    lemma_ipv6_bytes, lemma_ipv6_text_bytes, parse_ipv6, render_ipv6,
};
use crate::ip_round_trip::{
    lemma_families_differ, lemma_rendering_is_idempotent, lemma_split_push, lemma_split_whole,
};
use crate::text::{append, ascii_text, is_ascii, lemma_ascii_literal, same_bytes, same_text, utf8};
use crate::types::{
    Fault, FieldModel, ForwardingModel, ForwardingResult, PolicyModel, PolyguardError, Result,
    Verdict, limit_exceeded,
};

verus! {

/// The greatest length of a forwarding value.
pub const FORWARDING_VALUE_LIMIT: usize = 1024;

/// How the text of an IPv6 client address is treated.
#[derive(Clone, Copy, PartialEq, Eq, Structural)]
pub enum ClientRule {
    /// Any spelling is accepted and replaced by the canonical one.
    Rendered,
    /// Only the canonical spelling is accepted.
    Canonical,
    /// Any spelling is accepted and kept.
    AsGiven,
}

/// In what the forwarding policies differ.
pub struct ForwardingRules {
    pub client: ClientRule,
    /// Whether incoming forwarding fields are recognized whatever the case of their names.
    pub any_case: bool,
    /// Whether a repeated field is found out before its value is looked at.
    pub repeat_first: bool,
    /// Whether the new hop has to keep the limit by itself, before it is appended.
    pub hop_alone: bool,
}

/// The client as it stands in the forwarding fields.
#[verifier::ext_equal]
pub struct NodeModel {
    pub text: Seq<u8>,
    pub is_v6: bool,
}

pub open spec fn client_node(ip: Seq<u8>, rule: ClientRule) -> Option<NodeModel> {
    if is_ipv4(ip) {
        Some(NodeModel { text: ip, is_v6: false })
    } else {
        match ipv6_segments(ip) {
            Some(segments) => {
                let canonical = ipv6_text(segments);
                match rule {
                    ClientRule::Rendered => Some(NodeModel { text: canonical, is_v6: true }),
                    ClientRule::Canonical => if canonical == ip {
                        Some(NodeModel { text: ip, is_v6: true })
                    } else {
                        None
                    },
                    ClientRule::AsGiven => Some(NodeModel { text: ip, is_v6: true }),
                }
            },
            None => None,
        }
    }
}

pub open spec fn is_proto(proto: Seq<u8>) -> bool {
    proto == utf8("http"@) || proto == utf8("https"@)
}

/// The bytes that a backslash precedes in a quoted string.
pub open spec fn is_escaped(b: u8) -> bool {
    b == '"' as u8 || b == '\\' as u8
}

/// What stands for `s` between the quotes of a quoted string.
pub open spec fn escaped(s: Seq<u8>) -> Seq<u8>
    decreases s.len(),
{
    if s.len() == 0 {
        Seq::empty()
    } else if is_escaped(s.last()) {
        escaped(s.drop_last()).push('\\' as u8).push(s.last())
    } else {
        escaped(s.drop_last()).push(s.last())
    }
}

/// The `for` parameter of a hop; an IPv6 address stands in brackets and quotes.
pub open spec fn node_text(node: NodeModel) -> Seq<u8> {
    if node.is_v6 {
        utf8("\"["@) + node.text + utf8("]\""@)
    } else {
        node.text
    }
}

/// The element that a hop adds to the Forwarded field.
pub open spec fn hop(node: NodeModel, proto: Seq<u8>, host: Seq<u8>) -> Seq<u8> {
    utf8("for="@) + node_text(node) + utf8(";proto="@) + proto + utf8(";host=\""@) + escaped(host)
        + utf8("\""@)
}

/// What is added to Forwarded, X-Forwarded-For, X-Forwarded-Proto and X-Forwarded-Host.
pub open spec fn additions(node: NodeModel, policy: PolicyModel) -> Seq<Seq<u8>> {
    seq![hop(node, policy.proto, policy.host), node.text, policy.proto, policy.host]
}

/// Which of the four forwarding fields a name stands for.
pub open spec fn slot_of(name: Seq<u8>, any_case: bool) -> Option<int> {
    let read = if any_case {
        lowered(name)
    } else {
        name
    };
    if read == utf8("forwarded"@) {
        Some(0int)
    } else if read == utf8("x-forwarded-for"@) {
        Some(1int)
    } else if read == utf8("x-forwarded-proto"@) {
        Some(2int)
    } else if read == utf8("x-forwarded-host"@) {
        Some(3int)
    } else {
        None
    }
}

pub open spec fn is_blank(s: Seq<u8>) -> bool {
    all_in(s, ByteClass::Only(' ' as u8))
}

/// Whether a value is printable and no member of it, between commas, is blank.
pub open spec fn is_list(value: Seq<u8>) -> bool {
    &&& all_in(value, ByteClass::Printable)
    &&& forall|i: int|
        0 <= i < split(value, ',' as u8).len() ==> !is_blank(#[trigger] split(value, ',' as u8)[i])
}

pub open spec fn over_limit(actual: int) -> Fault {
    Fault::LimitExceeded {
        limit: "forwarding_value_bytes"@,
        max: FORWARDING_VALUE_LIMIT as int,
        actual: clamped(actual),
    }
}

/// What is wrong with an incoming value.
pub open spec fn value_fault(value: Seq<u8>) -> Option<Fault> {
    if value.len() > FORWARDING_VALUE_LIMIT {
        Some(over_limit(value.len() as int))
    } else if !is_list(value) {
        Some(Fault::InvalidForwardingInput)
    } else {
        None
    }
}

/// What is wrong with an incoming field, given whether the field was there before.
pub open spec fn field_fault(value: Seq<u8>, repeated: bool, repeat_first: bool) -> Option<Fault> {
    if repeated && (repeat_first || value_fault(value) is None) {
        Some(Fault::InvalidForwardingInput)
    } else {
        value_fault(value)
    }
}

/// The incoming values, once the fields from `from` on have been read.
pub open spec fn gathered(
    fields: Seq<FieldModel>,
    from: int,
    slots: Seq<Option<Seq<u8>>>,
    rules: ForwardingRules,
) -> Verdict<Seq<Option<Seq<u8>>>>
    decreases fields.len() - from,
{
    if from >= fields.len() {
        Ok(slots)
    } else {
        match slot_of(fields[from].name, rules.any_case) {
            None => gathered(fields, from + 1, slots, rules),
            Some(slot) => match field_fault(
                fields[from].value,
                slots[slot] is Some,
                rules.repeat_first,
            ) {
                Some(fault) => Err(fault),
                None => gathered(
                    fields,
                    from + 1,
                    slots.update(slot, Some(fields[from].value)),
                    rules,
                ),
            },
        }
    }
}

pub open spec fn no_slots() -> Seq<Option<Seq<u8>>> {
    seq![None, None, None, None]
}

/// A value with what is added to it.
pub open spec fn joined(prior: Option<Seq<u8>>, addition: Seq<u8>) -> Seq<u8> {
    match prior {
        Some(value) => value + utf8(", "@) + addition,
        None => addition,
    }
}

pub open spec fn joined_all(slots: Seq<Option<Seq<u8>>>, added: Seq<Seq<u8>>) -> Seq<Seq<u8>> {
    Seq::new(4, |k: int| joined(slots[k], added[k]))
}

/// The first value from `from` on that is too long.
pub open spec fn first_over(values: Seq<Seq<u8>>, from: int) -> Option<Fault>
    decreases values.len() - from,
{
    if from >= values.len() {
        None
    } else if values[from].len() > FORWARDING_VALUE_LIMIT {
        Some(over_limit(values[from].len() as int))
    } else {
        first_over(values, from + 1)
    }
}

/// The four values as a result, unless one is too long.
pub open spec fn placed(values: Seq<Seq<u8>>) -> Verdict<ForwardingModel> {
    match first_over(values, 0) {
        Some(fault) => Err(fault),
        None => Ok(
            ForwardingModel {
                forwarded: values[0],
                x_forwarded_for: values[1],
                x_forwarded_proto: values[2],
                x_forwarded_host: values[3],
            },
        ),
    }
}

/// The values of a boundary that trusts the incoming ones, once these have been gathered.
pub open spec fn extended(
    slots: Seq<Option<Seq<u8>>>,
    added: Seq<Seq<u8>>,
    hop_alone: bool,
) -> Verdict<ForwardingModel> {
    if hop_alone && added[0].len() > FORWARDING_VALUE_LIMIT {
        Err(over_limit(added[0].len() as int))
    } else {
        placed(joined_all(slots, added))
    }
}

/// Whether the protocol and the host of a policy can be used.
pub open spec fn is_usable(policy: PolicyModel) -> bool {
    is_proto(policy.proto) && endpoint(policy.host) is Some
}

/// The forwarding fields under a policy: the incoming values are replaced, or extended where the
/// policy trusts them.
pub open spec fn applied(
    policy: PolicyModel,
    fields: Seq<FieldModel>,
    rules: ForwardingRules,
) -> Verdict<ForwardingModel> {
    match client_node(policy.client_ip, rules.client) {
        None => Err(Fault::InvalidForwardingInput),
        Some(node) => if !is_usable(policy) {
            Err(Fault::InvalidForwardingInput)
        } else if !policy.trust_incoming {
            placed(additions(node, policy))
        } else {
            match gathered(fields, 0, no_slots(), rules) {
                Err(fault) => Err(fault),
                Ok(slots) => extended(slots, additions(node, policy), rules.hop_alone),
            }
        },
    }
}

proof fn lemma_printable_bytes(s: Seq<u8>)
    requires
        forall|j: int| 0 <= j < s.len() ==> is_ipv6_byte(#[trigger] s[j]),
    ensures
        all_in(s, ByteClass::Printable),
{
    assert forall|j: int| 0 <= j < s.len() implies ByteClass::Printable.has(#[trigger] s[j]) by {
        assert(is_ipv6_byte(s[j]));
    }
}

proof fn lemma_node_printable(ip: Seq<u8>, rule: ClientRule)
    requires
        client_node(ip, rule) is Some,
    ensures
        all_in(client_node(ip, rule).unwrap().text, ByteClass::Printable),
{
    if is_ipv4(ip) {
        lemma_ipv4_bytes(ip);
        assert forall|j: int| 0 <= j < ip.len() implies is_ipv6_byte(#[trigger] ip[j]) by {
            assert(is_digit(ip[j]) || ip[j] == '.' as u8);
        }
        lemma_printable_bytes(ip);
    } else {
        lemma_ipv6_bytes(ip);
        lemma_printable_bytes(ip);
        lemma_ipv6_text_bytes(ipv6_segments(ip).unwrap());
        lemma_printable_bytes(ipv6_text(ipv6_segments(ip).unwrap()));
    }
}

proof fn lemma_escaped_printable(s: Seq<u8>)
    requires
        all_in(s, ByteClass::Printable),
    ensures
        all_in(escaped(s), ByteClass::Printable),
    decreases s.len(),
{
    if s.len() > 0 {
        assert forall|j: int| 0 <= j < s.drop_last().len() implies ByteClass::Printable.has(
            #[trigger] s.drop_last()[j],
        ) by {
            assert(ByteClass::Printable.has(s[j]));
        }
        lemma_escaped_printable(s.drop_last());
        assert(ByteClass::Printable.has(s.last()));
        let e = escaped(s);
        let shorter = escaped(s.drop_last());
        assert forall|j: int| 0 <= j < e.len() implies ByteClass::Printable.has(
            #[trigger] e[j],
        ) by {
            if j < shorter.len() {
                assert(e[j] == shorter[j]);
            }
        }
    }
}

proof fn lemma_together_printable(a: Seq<u8>, b: Seq<u8>)
    requires
        all_in(a, ByteClass::Printable),
        all_in(b, ByteClass::Printable),
    ensures
        all_in(a + b, ByteClass::Printable),
{
    assert forall|j: int| 0 <= j < (a + b).len() implies ByteClass::Printable.has(
        #[trigger] (a + b)[j],
    ) by {
        if j < a.len() {
            assert(ByteClass::Printable.has(a[j]));
        } else {
            assert(ByteClass::Printable.has(b[j - a.len()]));
        }
    }
}

proof fn lemma_literals()
    ensures
        utf8("for="@).len() == 4,
        utf8(";proto="@).len() == 7,
        utf8(";host=\""@).len() == 7,
        utf8("\""@).len() == 1,
        utf8("\"["@).len() == 2,
        utf8("]\""@).len() == 2,
        utf8(", "@).len() == 2,
        all_in(utf8("for="@), ByteClass::Printable),
        all_in(utf8(";proto="@), ByteClass::Printable),
        all_in(utf8(";host=\""@), ByteClass::Printable),
        all_in(utf8("\""@), ByteClass::Printable),
        all_in(utf8("\"["@), ByteClass::Printable),
        all_in(utf8("]\""@), ByteClass::Printable),
        all_in(utf8(", "@), ByteClass::Printable),
        all_in(utf8("http"@), ByteClass::Printable),
        all_in(utf8("https"@), ByteClass::Printable),
{
    reveal_strlit("for=");
    reveal_strlit(";proto=");
    reveal_strlit(";host=\"");
    reveal_strlit("\"");
    reveal_strlit("\"[");
    reveal_strlit("]\"");
    reveal_strlit(", ");
    reveal_strlit("http");
    reveal_strlit("https");
    lemma_ascii_literal("for="@);
    lemma_ascii_literal(";proto="@);
    lemma_ascii_literal(";host=\""@);
    lemma_ascii_literal("\""@);
    lemma_ascii_literal("\"["@);
    lemma_ascii_literal("]\""@);
    lemma_ascii_literal(", "@);
    lemma_ascii_literal("http"@);
    lemma_ascii_literal("https"@);
}

/// What is added to the forwarding fields is printable.
pub proof fn lemma_additions_printable(policy: PolicyModel, rule: ClientRule)
    requires
        client_node(policy.client_ip, rule) is Some,
        is_usable(policy),
    ensures
        forall|k: int|
            0 <= k < 4 ==> all_in(
                #[trigger] additions(client_node(policy.client_ip, rule).unwrap(), policy)[k],
                ByteClass::Printable,
            ),
{
    let node = client_node(policy.client_ip, rule).unwrap();
    lemma_literals();
    lemma_node_printable(policy.client_ip, rule);
    lemma_endpoint_bytes(policy.host);
    assert forall|j: int| 0 <= j < policy.host.len() implies ByteClass::Printable.has(
        #[trigger] policy.host[j],
    ) by {
        assert(ByteClass::Authority.has(policy.host[j]));
    }
    lemma_escaped_printable(policy.host);
    lemma_together_printable(utf8("\"["@), node.text);
    lemma_together_printable(utf8("\"["@) + node.text, utf8("]\""@));
    let a = utf8("for="@);
    let b = a + node_text(node);
    let c = b + utf8(";proto="@);
    let d = c + policy.proto;
    let e = d + utf8(";host=\""@);
    let f = e + escaped(policy.host);
    lemma_together_printable(a, node_text(node));
    lemma_together_printable(b, utf8(";proto="@));
    lemma_together_printable(c, policy.proto);
    lemma_together_printable(d, utf8(";host=\""@));
    lemma_together_printable(e, escaped(policy.host));
    lemma_together_printable(f, utf8("\""@));
}

/// Whether incoming values are four, each within the limit and printable where it is there.
pub open spec fn slots_valid(slots: Seq<Option<Seq<u8>>>) -> bool {
    &&& slots.len() == 4
    &&& forall|k: int|
        0 <= k < 4 ==> ((#[trigger] slots[k]) matches Some(value) ==> value_fault(value) is None)
}

proof fn lemma_gathered_valid(
    fields: Seq<FieldModel>,
    from: int,
    slots: Seq<Option<Seq<u8>>>,
    rules: ForwardingRules,
)
    requires
        0 <= from,
        slots_valid(slots),
    ensures
        gathered(fields, from, slots, rules) matches Ok(read) ==> slots_valid(read),
    decreases fields.len() - from,
{
    if from < fields.len() {
        match slot_of(fields[from].name, rules.any_case) {
            None => {
                lemma_gathered_valid(fields, from + 1, slots, rules);
            },
            Some(slot) => {
                let next = slots.update(slot, Some(fields[from].value));
                if field_fault(fields[from].value, slots[slot] is Some, rules.repeat_first) is None {
                    assert(slots_valid(next));
                    lemma_gathered_valid(fields, from + 1, next, rules);
                }
            },
        }
    }
}

proof fn lemma_joined_printable(prior: Option<Seq<u8>>, addition: Seq<u8>)
    requires
        prior matches Some(value) ==> value_fault(value) is None,
        all_in(addition, ByteClass::Printable),
    ensures
        all_in(joined(prior, addition), ByteClass::Printable),
{
    lemma_literals();
    if let Some(value) = prior {
        lemma_together_printable(value, utf8(", "@));
        lemma_together_printable(value + utf8(", "@), addition);
    }
}

/// None of the values is over the limit where none is found.
pub proof fn lemma_first_over(values: Seq<Seq<u8>>, from: int)
    requires
        0 <= from <= values.len(),
    ensures
        first_over(values, from) is None <==> forall|k: int|
            from <= k < values.len() ==> (#[trigger] values[k]).len() <= FORWARDING_VALUE_LIMIT,
    decreases values.len() - from,
{
    if from < values.len() {
        lemma_first_over(values, from + 1);
    }
}

/// A visible byte that does not separate list members.
pub open spec fn is_plain_byte(b: u8) -> bool {
    is_visible(b) && b != ',' as u8
}

/// Whether a value is one list member of visible bytes.
pub open spec fn is_plain(s: Seq<u8>) -> bool {
    forall|i: int| 0 <= i < s.len() ==> is_plain_byte(#[trigger] s[i])
}

proof fn lemma_plain_concat(a: Seq<u8>, b: Seq<u8>)
    requires
        is_plain(a),
        is_plain(b),
    ensures
        is_plain(a + b),
{
    assert forall|i: int| 0 <= i < (a + b).len() implies is_plain_byte(#[trigger] (a + b)[i]) by {
        if i < a.len() {
            assert(is_plain_byte(a[i]));
        } else {
            assert(is_plain_byte(b[i - a.len()]));
        }
    }
}

proof fn lemma_escaped_plain(s: Seq<u8>)
    requires
        is_plain(s),
    ensures
        is_plain(escaped(s)),
    decreases s.len(),
{
    if s.len() > 0 {
        assert forall|i: int| 0 <= i < s.drop_last().len() implies is_plain_byte(
            #[trigger] s.drop_last()[i],
        ) by {
            assert(is_plain_byte(s[i]));
        }
        lemma_escaped_plain(s.drop_last());
        assert(is_plain_byte(s[s.len() - 1]));
        let e = escaped(s);
        let shorter = escaped(s.drop_last());
        assert forall|i: int| 0 <= i < e.len() implies is_plain_byte(#[trigger] e[i]) by {
            if i < shorter.len() {
                assert(e[i] == shorter[i]);
            }
        }
    }
}

proof fn lemma_hop_plain(node: NodeModel, proto: Seq<u8>, host: Seq<u8>)
    requires
        is_plain(node.text),
        is_plain(proto),
        is_plain(host),
    ensures
        is_plain(hop(node, proto, host)),
        hop(node, proto, host).len() > 0,
{
    reveal_strlit("for=");
    reveal_strlit(";proto=");
    reveal_strlit(";host=\"");
    reveal_strlit("\"");
    reveal_strlit("\"[");
    reveal_strlit("]\"");
    lemma_ascii_literal("for="@);
    lemma_ascii_literal(";proto="@);
    lemma_ascii_literal(";host=\""@);
    lemma_ascii_literal("\""@);
    lemma_ascii_literal("\"["@);
    lemma_ascii_literal("]\""@);
    lemma_escaped_plain(host);
    lemma_plain_concat(utf8("\"["@), node.text);
    lemma_plain_concat(utf8("\"["@) + node.text, utf8("]\""@));
    let a = utf8("for="@);
    let b = a + node_text(node);
    let c = b + utf8(";proto="@);
    let d = c + proto;
    let e = d + utf8(";host=\""@);
    let f = e + escaped(host);
    lemma_plain_concat(a, node_text(node));
    lemma_plain_concat(b, utf8(";proto="@));
    lemma_plain_concat(c, proto);
    lemma_plain_concat(d, utf8(";host=\""@));
    lemma_plain_concat(e, escaped(host));
    lemma_plain_concat(f, utf8("\""@));
}

proof fn lemma_node_plain(ip: Seq<u8>, rule: ClientRule)
    requires
        client_node(ip, rule) is Some,
    ensures
        is_plain(client_node(ip, rule).unwrap().text),
        client_node(ip, rule).unwrap().text.len() > 0,
{
    let text = client_node(ip, rule).unwrap().text;
    if is_ipv4(ip) {
        lemma_ipv4_bytes(ip);
        assert forall|i: int| 0 <= i < text.len() implies is_plain_byte(#[trigger] text[i]) by {
            assert(is_digit(ip[i]) || ip[i] == '.' as u8);
        }
        if ip.len() == 0 {
            lemma_split_whole(ip, '.' as u8);
        }
    } else {
        let segments = ipv6_segments(ip).unwrap();
        lemma_ipv6_bytes(ip);
        lemma_ipv6_text_bytes(segments);
        lemma_rendering_is_idempotent(ip);
        lemma_ipv6_bytes(ipv6_text(segments));
        assert forall|i: int| 0 <= i < text.len() implies is_plain_byte(#[trigger] text[i]) by {
            assert(is_ipv6_byte(text[i]));
        }
    }
}

/// What is added to a forwarding field is one list member.
pub proof fn lemma_additions_plain(policy: PolicyModel, rule: ClientRule)
    requires
        client_node(policy.client_ip, rule) is Some,
        is_usable(policy),
    ensures
        ({
            let added = additions(client_node(policy.client_ip, rule).unwrap(), policy);
            &&& added.len() == 4
            &&& forall|k: int|
                0 <= k < 4 ==> is_plain(#[trigger] added[k]) && added[k].len() > 0
        }),
{
    let node = client_node(policy.client_ip, rule).unwrap();
    lemma_node_plain(policy.client_ip, rule);
    reveal_strlit("http");
    reveal_strlit("https");
    lemma_ascii_literal("http"@);
    lemma_ascii_literal("https"@);
    lemma_endpoint_bytes(policy.host);
    assert forall|i: int| 0 <= i < policy.host.len() implies is_plain_byte(
        #[trigger] policy.host[i],
    ) by {
        assert(ByteClass::Authority.has(policy.host[i]));
    }
    lemma_hop_plain(node, policy.proto, policy.host);
}

/// An incoming value with one list member more is a list.
pub proof fn lemma_joined_is_list(prior: Option<Seq<u8>>, addition: Seq<u8>)
    requires
        prior matches Some(value) ==> value_fault(value) is None,
        addition.len() > 0,
        is_plain(addition),
    ensures
        joined(prior, addition).len() > 0,
        is_list(joined(prior, addition)),
{
    let comma = ByteClass::Only(',' as u8);
    let blank = ByteClass::Only(' ' as u8);
    let front = match prior {
        Some(_) => seq![' ' as u8],
        None => Seq::<u8>::empty(),
    };
    let piece = front + addition;
    assert forall|i: int| 0 <= i < piece.len() implies !comma.has(#[trigger] piece[i])
        && ByteClass::Printable.has(piece[i]) by {
        if i >= front.len() {
            assert(is_plain_byte(addition[i - front.len()]));
        }
    }
    assert(!is_blank(piece)) by {
        assert(piece[front.len() as int] == addition[0]);
        assert(is_plain_byte(addition[0]));
        assert(!blank.has(piece[front.len() as int]));
    }
    let whole = joined(prior, addition);
    let pieces = split(whole, ',' as u8);
    match prior {
        None => {
            assert(piece =~= whole);
            lemma_split_whole(whole, ',' as u8);
        },
        Some(value) => {
            reveal_strlit(", ");
            lemma_ascii_literal(", "@);
            assert(whole =~= value + seq![',' as u8] + piece);
            lemma_split_push(value, ',' as u8, piece);
            let members = split(value, ',' as u8);
            assert forall|i: int| 0 <= i < whole.len() implies ByteClass::Printable.has(
                #[trigger] whole[i],
            ) by {
                if i < value.len() {
                    assert(ByteClass::Printable.has(value[i]));
                } else if i > value.len() {
                    assert(whole[i] == piece[i - value.len() - 1]);
                }
            }
            assert forall|i: int| 0 <= i < pieces.len() implies !is_blank(#[trigger] pieces[i]) by {
                if i < members.len() {
                    assert(pieces[i] == members[i]);
                    assert(!is_blank(members[i]));
                }
            }
        },
    }
}

/// The values of the four forwarding fields, in order.
pub open spec fn values_of(result: ForwardingModel) -> Seq<Seq<u8>> {
    seq![
        result.forwarded,
        result.x_forwarded_for,
        result.x_forwarded_proto,
        result.x_forwarded_host,
    ]
}

/// What holds of every value that is produced: it is not empty, keeps the limit, and is a printable
/// list of which no member, between commas, is blank.
pub open spec fn is_sound(value: Seq<u8>) -> bool {
    1 <= value.len() <= FORWARDING_VALUE_LIMIT && is_list(value)
}

/// Every value that is produced has a byte at least, keeps the limit, is printable, and is a list
/// of which no member is blank: no line break gets into a request head by a forwarding field.
pub proof fn lemma_applied_bounded(
    policy: PolicyModel,
    fields: Seq<FieldModel>,
    rules: ForwardingRules,
)
    ensures
        applied(policy, fields, rules) matches Ok(result) ==> {
            &&& is_sound(result.forwarded)
            &&& is_sound(result.x_forwarded_for)
            &&& is_sound(result.x_forwarded_proto)
            &&& is_sound(result.x_forwarded_host)
        },
{
    if let Ok(result) = applied(policy, fields, rules) {
        let node = client_node(policy.client_ip, rules.client).unwrap();
        let added = additions(node, policy);
        lemma_additions_plain(policy, rules.client);
        lemma_gathered_valid(fields, 0, no_slots(), rules);
        let slots = if policy.trust_incoming {
            gathered(fields, 0, no_slots(), rules)->Ok_0
        } else {
            no_slots()
        };
        let values = joined_all(slots, added);
        if !policy.trust_incoming {
            assert(values =~= added);
        }
        lemma_first_over(values, 0);
        assert forall|k: int| 0 <= k < 4 implies is_sound(#[trigger] values[k]) by {
            assert(is_plain(added[k]));
            assert(slots[k] matches Some(value) ==> value_fault(value) is None);
            lemma_joined_is_list(slots[k], added[k]);
        }
        assert(values_of(result) =~= values);
        assert(values_of(result)[0] == result.forwarded);
        assert(values_of(result)[1] == result.x_forwarded_for);
        assert(values_of(result)[2] == result.x_forwarded_proto);
        assert(values_of(result)[3] == result.x_forwarded_host);
    }
}

/// A boundary that does not trust the incoming fields pays no heed to them.
pub proof fn lemma_untrusted_fields_ignored(
    policy: PolicyModel,
    fields: Seq<FieldModel>,
    others: Seq<FieldModel>,
    rules: ForwardingRules,
)
    requires
        !policy.trust_incoming,
    ensures
        applied(policy, fields, rules) == applied(policy, others, rules),
{
}

/// Whatever came in, each value ends with what this boundary knows itself.
pub proof fn lemma_own_values_last(
    policy: PolicyModel,
    fields: Seq<FieldModel>,
    rules: ForwardingRules,
)
    ensures
        applied(policy, fields, rules) matches Ok(result) ==> {
            let node = client_node(policy.client_ip, rules.client).unwrap();
            &&& hop(node, policy.proto, policy.host).is_suffix_of(result.forwarded)
            &&& node.text.is_suffix_of(result.x_forwarded_for)
            &&& policy.proto.is_suffix_of(result.x_forwarded_proto)
            &&& policy.host.is_suffix_of(result.x_forwarded_host)
        },
{
    if applied(policy, fields, rules) is Ok {
        let node = client_node(policy.client_ip, rules.client).unwrap();
        let added = additions(node, policy);
        let slots = if policy.trust_incoming {
            gathered(fields, 0, no_slots(), rules)->Ok_0
        } else {
            no_slots()
        };
        let values = joined_all(slots, added);
        assert forall|k: int| 0 <= k < 4 implies added[k].is_suffix_of(#[trigger] values[k]) by {
            assert(values[k] == joined(slots[k], added[k]));
            assert(values[k].skip(values[k].len() - added[k].len()) =~= added[k]);
        }
        assert(added[0].is_suffix_of(values[0]));
        assert(added[1].is_suffix_of(values[1]));
        assert(added[2].is_suffix_of(values[2]));
        assert(added[3].is_suffix_of(values[3]));
    }
}

/// Whether the field at `i`, from `from` on, is the only one with a name.
pub open spec fn is_only(fields: Seq<FieldModel>, from: int, i: int, name: Seq<u8>) -> bool {
    &&& from <= i < fields.len()
    &&& fields[i].name == name
    &&& forall|j: int| from <= j < fields.len() && j != i ==> (#[trigger] fields[j]).name != name
}

/// Whether no field from `from` on has a name.
pub open spec fn is_absent(fields: Seq<FieldModel>, from: int, name: Seq<u8>) -> bool {
    forall|j: int| from <= j < fields.len() ==> (#[trigger] fields[j]).name != name
}

/// Whether names count as they are: because their case matters, or because all are in lower case.
pub open spec fn reads_names(fields: Seq<FieldModel>, rules: ForwardingRules) -> bool {
    !rules.any_case || forall|i: int|
        0 <= i < fields.len() ==> lowered((#[trigger] fields[i]).name) == fields[i].name
}

/// Each of the four names has its slot.
pub proof fn lemma_slot_names(name: Seq<u8>)
    ensures
        forall|k: int|
            0 <= k < 4 ==> (slot_of(name, false) == Some(k) <==> name == utf8(
                #[trigger] slot_text(k),
            )),
{
    reveal_strlit("forwarded");
    reveal_strlit("x-forwarded-for");
    reveal_strlit("x-forwarded-proto");
    reveal_strlit("x-forwarded-host");
    lemma_ascii_literal("forwarded"@);
    lemma_ascii_literal("x-forwarded-for"@);
    lemma_ascii_literal("x-forwarded-proto"@);
    lemma_ascii_literal("x-forwarded-host"@);
}

/// What is gathered for one name.
pub proof fn lemma_gathered_is_only(
    fields: Seq<FieldModel>,
    from: int,
    slots: Seq<Option<Seq<u8>>>,
    rules: ForwardingRules,
    k: int,
)
    requires
        0 <= from,
        slots.len() == 4,
        0 <= k < 4,
        reads_names(fields, rules),
        gathered(fields, from, slots, rules) is Ok,
    ensures
        ({
            let name = utf8(slot_text(k));
            let read = gathered(fields, from, slots, rules)->Ok_0;
            ||| is_absent(fields, from, name) && read[k] == slots[k]
            ||| slots[k] is None && exists|i: int| #[trigger]
                is_only(fields, from, i, name) && read[k] == Some(fields[i].value)
        }),
    decreases fields.len() - from,
{
    let name = utf8(slot_text(k));
    if from < fields.len() {
        let field = fields[from];
        assert(slot_of(field.name, rules.any_case) == slot_of(field.name, false));
        lemma_slot_names(field.name);
        let next = match slot_of(field.name, rules.any_case) {
            None => slots,
            Some(slot) => slots.update(slot, Some(field.value)),
        };
        lemma_gathered_is_only(fields, from + 1, next, rules, k);
        let read = gathered(fields, from + 1, next, rules)->Ok_0;
        if is_absent(fields, from + 1, name) && read[k] == next[k] {
            if field.name == name {
                assert(is_only(fields, from, from, name));
            }
        } else {
            let i = choose|i: int| #[trigger]
                is_only(fields, from + 1, i, name) && read[k] == Some(fields[i].value);
            assert(is_only(fields, from, i, name));
        }
    }
}

/// A boundary that trusts the incoming fields extends them: of each forwarding field there is at
/// most one, and its value comes before the one that the boundary would give without it.
pub proof fn lemma_trusted_values_are_extended(
    policy: PolicyModel,
    fields: Seq<FieldModel>,
    rules: ForwardingRules,
    k: int,
)
    requires
        policy.trust_incoming,
        reads_names(fields, rules),
        applied(policy, fields, rules) is Ok,
        0 <= k < 4,
    ensures
        ({
            let name = utf8(slot_text(k));
            let value = values_of(applied(policy, fields, rules)->Ok_0)[k];
            let alone = applied(PolicyModel { trust_incoming: false, ..policy }, fields, rules);
            &&& alone is Ok
            &&& {
                ||| is_absent(fields, 0, name) && value == values_of(alone->Ok_0)[k]
                ||| exists|i: int| #[trigger]
                    is_only(fields, 0, i, name) && value == fields[i].value + utf8(", "@)
                        + values_of(alone->Ok_0)[k]
            }
        }),
{
    let node = client_node(policy.client_ip, rules.client).unwrap();
    let added = additions(node, policy);
    let untrusting = PolicyModel { trust_incoming: false, ..policy };
    assert(additions(node, untrusting) == added);
    let slots = gathered(fields, 0, no_slots(), rules)->Ok_0;
    let values = joined_all(slots, added);
    lemma_gathered_is_only(fields, 0, no_slots(), rules, k);
    lemma_first_over(values, 0);
    lemma_first_over(added, 0);
    assert forall|j: int| 0 <= j < 4 implies (#[trigger] added[j]).len()
        <= FORWARDING_VALUE_LIMIT by {
        assert(values[j] == joined(slots[j], added[j]));
    }
    assert(values_of(applied(policy, fields, rules)->Ok_0) =~= values);
    assert(values_of(applied(untrusting, fields, rules)->Ok_0) =~= added);
    assert(values[k] == joined(slots[k], added[k]));
}

proof fn lemma_gathered_alike(
    fields: Seq<FieldModel>,
    from: int,
    slots: Seq<Option<Seq<u8>>>,
    one: ForwardingRules,
    other: ForwardingRules,
)
    requires
        0 <= from,
        one.any_case == other.any_case || forall|i: int|
            0 <= i < fields.len() ==> lowered((#[trigger] fields[i]).name) == fields[i].name,
    ensures
        gathered(fields, from, slots, one) is Ok == gathered(fields, from, slots, other) is Ok,
        gathered(fields, from, slots, one) is Ok ==> gathered(fields, from, slots, one) == gathered(
            fields,
            from,
            slots,
            other,
        ),
    decreases fields.len() - from,
{
    if from < fields.len() {
        assert(slot_of(fields[from].name, one.any_case) == slot_of(
            fields[from].name,
            other.any_case,
        ));
        match slot_of(fields[from].name, one.any_case) {
            None => {
                lemma_gathered_alike(fields, from + 1, slots, one, other);
            },
            Some(slot) => {
                lemma_gathered_alike(
                    fields,
                    from + 1,
                    slots.update(slot, Some(fields[from].value)),
                    one,
                    other,
                );
            },
        }
    }
}

/// On a client address in its canonical spelling, and on field names in lower case, all policies
/// accept the same requests and produce the same values.
pub proof fn lemma_rules_accept_alike(
    policy: PolicyModel,
    fields: Seq<FieldModel>,
    one: ForwardingRules,
    other: ForwardingRules,
)
    requires
        is_ipv4(policy.client_ip) || (ipv6_segments(policy.client_ip) matches Some(segments)
            && ipv6_text(segments) == policy.client_ip),
        forall|i: int|
            0 <= i < fields.len() ==> lowered((#[trigger] fields[i]).name) == fields[i].name,
    ensures
        applied(policy, fields, one) is Ok == applied(policy, fields, other) is Ok,
        applied(policy, fields, one) is Ok ==> applied(policy, fields, one) == applied(
            policy,
            fields,
            other,
        ),
{
    lemma_gathered_alike(fields, 0, no_slots(), one, other);
    let node = client_node(policy.client_ip, one.client).unwrap();
    assert(client_node(policy.client_ip, other.client) == Some(node));
    let added = additions(node, policy);
    if let Ok(slots) = gathered(fields, 0, no_slots(), one) {
        let values = joined_all(slots, added);
        lemma_first_over(values, 0);
        assert(values[0].len() >= added[0].len());
        assert(extended(slots, added, true) is Ok == extended(slots, added, false) is Ok);
    }
}

/// A rendered client is in canonical spelling: every policy takes it as it is.
pub proof fn lemma_rendered_is_canonical(ip: Seq<u8>, rule: ClientRule)
    requires
        client_node(ip, ClientRule::Rendered) is Some,
    ensures
        client_node(client_node(ip, ClientRule::Rendered).unwrap().text, rule) == client_node(
            ip,
            ClientRule::Rendered,
        ),
{
    if !is_ipv4(ip) {
        let text = ipv6_text(ipv6_segments(ip).unwrap());
        lemma_rendering_is_idempotent(ip);
        lemma_families_differ(text);
    }
}

/// The client of a request, read from its address.
pub struct ClientNode {
    pub text: Vec<u8>,
    pub is_v6: bool,
}

impl View for ClientNode {
    type V = NodeModel;

    open spec fn view(&self) -> NodeModel {
        NodeModel { text: self.text@, is_v6: self.is_v6 }
    }
}

pub open spec fn node_of(node: Option<ClientNode>) -> Option<NodeModel> {
    match node {
        Some(node) => Some(node@),
        None => None,
    }
}

/// Reads the address of a client.
pub fn read_client(ip: &[u8], rule: ClientRule) -> (node: Option<ClientNode>)
    ensures
        node_of(node) == client_node(ip@, rule),
{
    if is_ipv4_text(ip) {
        return Some(ClientNode { text: vstd::slice::slice_to_vec(ip), is_v6: false });
    }
    match parse_ipv6(ip) {
        None => None,
        Some(segments) => {
            let canonical: Vec<u8> = render_ipv6(segments.as_slice());
            match rule {
                ClientRule::Rendered => Some(ClientNode { text: canonical, is_v6: true }),
                ClientRule::Canonical => if same_bytes(canonical.as_slice(), ip) {
                    Some(ClientNode { text: canonical, is_v6: true })
                } else {
                    None
                },
                ClientRule::AsGiven => Some(
                    ClientNode { text: vstd::slice::slice_to_vec(ip), is_v6: true },
                ),
            }
        },
    }
}

pub fn is_proto_text(proto: &str) -> (valid: bool)
    ensures
        valid == is_proto(utf8(proto@)),
{
    same_text(proto, "http") || same_text(proto, "https")
}

/// Whether a text names an endpoint.
pub fn is_host_text(host: &str) -> (valid: bool)
    ensures
        valid == endpoint(utf8(host@)) is Some,
{
    parse_endpoint(host.as_bytes()).is_some()
}

pub fn check_limit(actual: usize) -> (result: Result<()>)
    ensures
        actual <= FORWARDING_VALUE_LIMIT ==> result == Ok::<(), PolyguardError>(()),
        actual > FORWARDING_VALUE_LIMIT ==> (result matches Err(error) && error@ == over_limit(
            actual as int,
        )),
{
    if actual > FORWARDING_VALUE_LIMIT {
        Err(limit_exceeded("forwarding_value_bytes", FORWARDING_VALUE_LIMIT, actual))
    } else {
        Ok(())
    }
}

/// Appends a text with the backslashes that a quoted string needs.
pub fn append_escaped(out: &mut Vec<u8>, s: &[u8])
    ensures
        final(out)@ == old(out)@ + escaped(s@),
{
    let mut index: usize = 0;
    assert(s@.take(0) =~= Seq::<u8>::empty());
    assert(out@ =~= out@ + escaped(s@.take(0)));
    while index < s.len()
        invariant
            index <= s@.len(),
            out@ == old(out)@ + escaped(s@.take(index as int)),
        decreases s@.len() - index,
    {
        let byte: u8 = s[index];
        assert(s@.take(index + 1).drop_last() =~= s@.take(index as int));
        if byte == '"' as u8 || byte == '\\' as u8 {
            out.push('\\' as u8);
        }
        out.push(byte);
        index += 1;
        assert(out@ =~= old(out)@ + escaped(s@.take(index as int)));
    }
    assert(s@.take(index as int) =~= s@);
}

/// How long a text is once the backslashes that a quoted string needs are in it; the greatest size
/// where that is too long.
pub fn escaped_size(s: &[u8]) -> (size: usize)
    ensures
        size == clamped(escaped(s@).len() as int),
{
    let mut size: usize = 0;
    let mut index: usize = 0;
    assert(s@.take(0) =~= Seq::<u8>::empty());
    while index < s.len()
        invariant
            index <= s@.len(),
            size == clamped(escaped(s@.take(index as int)).len() as int),
        decreases s@.len() - index,
    {
        let byte: u8 = s[index];
        assert(s@.take(index + 1).drop_last() =~= s@.take(index as int));
        if byte == '"' as u8 || byte == '\\' as u8 {
            size = size.saturating_add(1);
        }
        size = size.saturating_add(1);
        index += 1;
    }
    assert(s@.take(index as int) =~= s@);
    size
}

/// How long a hop is; the greatest size where it is too long for one.
pub fn hop_size(node: &ClientNode, proto: &[u8], host: &[u8]) -> (size: usize)
    ensures
        size == clamped(hop(node@, proto@, host@).len() as int),
{
    proof {
        lemma_literals();
    }
    let around: usize = if node.is_v6 {
        23
    } else {
        19
    };
    around.saturating_add(node.text.len()).saturating_add(proto.len()).saturating_add(
        escaped_size(host),
    )
}

/// The element that a hop adds to the Forwarded field.
pub fn render_hop(node: &ClientNode, proto: &[u8], host: &[u8]) -> (text: Vec<u8>)
    ensures
        text@ == hop(node@, proto@, host@),
{
    let mut text: Vec<u8> = Vec::new();
    append(&mut text, "for=".as_bytes());
    if node.is_v6 {
        append(&mut text, "\"[".as_bytes());
        append(&mut text, node.text.as_slice());
        append(&mut text, "]\"".as_bytes());
    } else {
        append(&mut text, node.text.as_slice());
    }
    append(&mut text, ";proto=".as_bytes());
    append(&mut text, proto);
    append(&mut text, ";host=\"".as_bytes());
    append_escaped(&mut text, host);
    append(&mut text, "\"".as_bytes());
    assert(text@ =~= hop(node@, proto@, host@));
    text
}

/// Whether a value is printable and no member of it is blank.
pub fn is_list_value(value: &[u8]) -> (valid: bool)
    ensures
        valid == is_list(value@),
{
    if !all_bytes_in(value, ByteClass::Printable) {
        return false;
    }
    let members: Vec<&[u8]> = split_on(value, ',' as u8);
    let mut index: usize = 0;
    while index < members.len()
        invariant
            index <= members@.len(),
            members@.len() == split(value@, ',' as u8).len(),
            forall|i: int|
                0 <= i < members@.len() ==> (#[trigger] members@[i])@ == split(value@, ',' as u8)[i],
            forall|i: int| 0 <= i < index ==> !is_blank(#[trigger] split(value@, ',' as u8)[i]),
        decreases members@.len() - index,
    {
        if all_bytes_in(members[index], ByteClass::Only(' ' as u8)) {
            assert(is_blank(split(value@, ',' as u8)[index as int]));
            return false;
        }
        index += 1;
    }
    true
}

/// The same by one pass over the bytes, which keeps in mind whether the member has content.
pub fn is_list_by_scan(value: &[u8]) -> (valid: bool)
    ensures
        valid == is_list(value@),
{
    let ghost members = split(value@, ',' as u8);
    let ghost mut start = 0int;
    let ghost mut seen = 0int;
    let mut content: bool = false;
    let mut index: usize = 0;
    proof {
        assert(value@.skip(0) =~= value@);
        assert(members.skip(0) =~= members);
        lemma_first_in(value@, ByteClass::Only(',' as u8));
    }
    while index < value.len()
        invariant
            0 <= start <= index <= value@.len(),
            0 <= seen < members.len(),
            members == split(value@, ',' as u8),
            members.skip(seen) == split(value@.skip(start), ',' as u8),
            forall|j: int| start <= j < index ==> value@[j] != ',' as u8,
            forall|j: int| 0 <= j < index ==> ByteClass::Printable.has(#[trigger] value@[j]),
            content == exists|j: int| start <= j < index && #[trigger] value@[j] != ' ' as u8,
            forall|i: int| 0 <= i < seen ==> !is_blank(#[trigger] members[i]),
        decreases value@.len() - index,
    {
        let byte: u8 = value[index];
        let ghost before = index as int;
        if byte == ',' as u8 {
            proof {
                lemma_scanned_member(value@, start, before, members, seen);
            }
            if !content {
                return false;
            }
            content = false;
            proof {
                start = before + 1;
                seen = seen + 1;
            }
        } else if !ByteClass::Printable.has(byte) {
            return false;
        } else if byte != ' ' as u8 {
            content = true;
            assert(value@[before] != ' ' as u8);
        }
        index += 1;
    }
    proof {
        lemma_scanned_member(value@, start, value@.len() as int, members, seen);
        assert(all_in(value@, ByteClass::Printable));
    }
    content
}

/// The member that a scan has found: it is blank where no byte of it is another than a space.
proof fn lemma_scanned_member(
    value: Seq<u8>,
    start: int,
    end: int,
    members: Seq<Seq<u8>>,
    seen: int,
)
    requires
        0 <= start <= end <= value.len(),
        0 <= seen < members.len(),
        members == split(value, ',' as u8),
        members.skip(seen) == split(value.skip(start), ',' as u8),
        forall|j: int| start <= j < end ==> value[j] != ',' as u8,
        end < value.len() ==> value[end] == ',' as u8,
    ensures
        is_blank(members[seen]) == !exists|j: int| start <= j < end && #[trigger] value[j] != ' ' as u8,
        end < value.len() ==> {
            &&& seen + 1 < members.len()
            &&& members.skip(seen + 1) == split(value.skip(end + 1), ',' as u8)
        },
        end == value.len() ==> seen + 1 == members.len(),
{
    lemma_split_step(value, ',' as u8, start, members, seen);
    lemma_first_from_unique(value, ByteClass::Only(',' as u8), start, end);
    let member = members[seen];
    assert(member == value.subrange(start, end));
    if exists|j: int| start <= j < end && #[trigger] value[j] != ' ' as u8 {
        let j = choose|j: int| start <= j < end && #[trigger] value[j] != ' ' as u8;
        assert(member[j - start] == value[j]);
        assert(!ByteClass::Only(' ' as u8).has(member[j - start]));
    } else {
        assert forall|i: int| 0 <= i < member.len() implies ByteClass::Only(' ' as u8).has(
            #[trigger] member[i],
        ) by {
            assert(member[i] == value[start + i]);
        }
    }
}

/// The name of a forwarding field.
pub open spec fn slot_text(slot: int) -> Seq<char> {
    if slot == 0 {
        "forwarded"@
    } else if slot == 1 {
        "x-forwarded-for"@
    } else if slot == 2 {
        "x-forwarded-proto"@
    } else {
        "x-forwarded-host"@
    }
}

/// The name of a forwarding field.
pub fn slot_name(slot: usize) -> (name: &'static str)
    ensures
        name@ == slot_text(slot as int),
{
    match slot {
        0 => "forwarded",
        1 => "x-forwarded-for",
        2 => "x-forwarded-proto",
        _ => "x-forwarded-host",
    }
}

/// The forwarding field that a name stands for is the first in the table with that name.
pub proof fn lemma_slot_found(name: Seq<u8>, any_case: bool, slot: int)
    requires
        0 <= slot <= 4,
        ({
            let read = if any_case {
                lowered(name)
            } else {
                name
            };
            &&& forall|k: int| 0 <= k < slot ==> read != utf8(#[trigger] slot_text(k))
            &&& slot < 4 ==> read == utf8(slot_text(slot))
        }),
    ensures
        slot < 4 ==> slot_of(name, any_case) == Some(slot),
        slot == 4 ==> slot_of(name, any_case) is None,
{
    if slot > 0 {
        assert(slot_text(0) == "forwarded"@);
    }
    if slot > 1 {
        assert(slot_text(1) == "x-forwarded-for"@);
    }
    if slot > 2 {
        assert(slot_text(2) == "x-forwarded-proto"@);
    }
    if slot > 3 {
        assert(slot_text(3) == "x-forwarded-host"@);
    }
}

pub open spec fn bytes_of(value: Option<&[u8]>) -> Option<Seq<u8>> {
    match value {
        Some(bytes) => Some(bytes@),
        None => None,
    }
}

pub open spec fn slots_of(values: Seq<Option<&[u8]>>) -> Seq<Option<Seq<u8>>> {
    values.map_values(|value: Option<&[u8]>| bytes_of(value))
}

/// How long a value is with an addition of a length; the greatest size where that is too long.
pub fn joined_size(prior: Option<&[u8]>, addition: usize) -> (size: usize)
    ensures
        forall|added: Seq<u8>|
            added.len() == addition ==> size == clamped(
                (#[trigger] joined(bytes_of(prior), added)).len() as int,
            ),
{
    proof {
        lemma_literals();
    }
    match prior {
        None => addition,
        Some(value) => value.len().saturating_add(2).saturating_add(addition),
    }
}

/// Four fields of which none has come in.
pub fn empty_slots<'a>() -> (slots: Vec<Option<&'a [u8]>>)
    ensures
        slots@.len() == 4,
        slots_of(slots@) == no_slots(),
        slots_valid(slots_of(slots@)),
{
    let mut slots: Vec<Option<&'a [u8]>> = Vec::new();
    slots.push(None);
    slots.push(None);
    slots.push(None);
    slots.push(None);
    assert(slots_of(slots@) =~= no_slots());
    slots
}

/// Four values as a result.
pub fn result_of_four(values: Vec<String>) -> (result: ForwardingResult)
    requires
        values@.len() == 4,
    ensures
        result@.forwarded == utf8(values@[0]@),
        result@.x_forwarded_for == utf8(values@[1]@),
        result@.x_forwarded_proto == utf8(values@[2]@),
        result@.x_forwarded_host == utf8(values@[3]@),
{
    let mut rest: Vec<String> = values;
    let x_forwarded_host: Option<String> = rest.pop();
    let x_forwarded_proto: Option<String> = rest.pop();
    let x_forwarded_for: Option<String> = rest.pop();
    let forwarded: Option<String> = rest.pop();
    ForwardingResult {
        forwarded: forwarded.unwrap(),
        x_forwarded_for: x_forwarded_for.unwrap(),
        x_forwarded_proto: x_forwarded_proto.unwrap(),
        x_forwarded_host: x_forwarded_host.unwrap(),
    }
}

/// A value with what is added to it, as text.
pub fn join_text(prior: Option<&[u8]>, addition: &[u8]) -> (text: String)
    requires
        bytes_of(prior) matches Some(value) ==> value_fault(value) is None,
        all_in(addition@, ByteClass::Printable),
    ensures
        utf8(text@) == joined(bytes_of(prior), addition@),
{
    let mut out: Vec<u8> = Vec::new();
    if let Some(value) = prior {
        append(&mut out, value);
        append(&mut out, ", ".as_bytes());
    }
    append(&mut out, addition);
    assert(out@ =~= joined(bytes_of(prior), addition@));
    proof {
        lemma_joined_printable(bytes_of(prior), addition@);
        lemma_printable_ascii(out@);
    }
    ascii_text(out.as_slice())
}

pub proof fn lemma_printable_ascii(s: Seq<u8>)
    requires
        all_in(s, ByteClass::Printable),
    ensures
        is_ascii(s),
{
    assert forall|i: int| 0 <= i < s.len() implies #[trigger] s[i] < 0x80 by {
        assert(ByteClass::Printable.has(s[i]));
    }
}

/// No value so far is too long: the first one that is lies further on.
pub proof fn lemma_over_step(values: Seq<Seq<u8>>, k: int)
    requires
        0 <= k < values.len(),
        values[k].len() <= FORWARDING_VALUE_LIMIT,
    ensures
        first_over(values, k) == first_over(values, k + 1),
{
}

} // verus!
