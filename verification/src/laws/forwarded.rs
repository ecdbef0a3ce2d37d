//! The forwarding fields that a request leaves with.

use vstd::prelude::*;
use crate::bytes::{ByteClass, all_in, lowered, split};
use crate::forwarding::{
    ForwardingRules, additions, applied, client_node, escaped, gathered, hop, is_absent, is_blank,
    is_list, is_only, is_usable, joined_all, lemma_first_over, lemma_gathered_is_only,
    lemma_slot_names, lemma_trusted_values_are_extended, no_slots, slot_of, slot_text, values_of,
};
use crate::host::{endpoint, lemma_endpoint_bytes};
use crate::ip::{ipv6_segments, ipv6_text, is_ipv4};
use crate::laws::byte_text::lemma_lowered_bytes;
use crate::text::{lemma_ascii_literal, utf8};
use crate::types::{Fault, FieldModel, ForwardingModel, PolicyModel};

verus! {

proof fn lemma_host_unescaped(s: Seq<u8>)
    requires
        all_in(s, ByteClass::Authority),
    ensures
        escaped(s) == s,
    decreases s.len(),
{
    if s.len() > 0 {
        let shorter = s.drop_last();
        assert forall|i: int| 0 <= i < shorter.len() implies ByteClass::Authority.has(
            #[trigger] shorter[i],
        ) by {
            assert(ByteClass::Authority.has(s[i]));
        }
        lemma_host_unescaped(shorter);
        assert(ByteClass::Authority.has(s[s.len() - 1]));
        assert(escaped(s) =~= s);
    } else {
        assert(escaped(s) =~= s);
    }
}

/// What a boundary that trusts no incoming field says of a request: in Forwarded the client, the
/// scheme and the host, and each of them in a field of its own. An IPv6 client stands between
/// quotes and brackets in Forwarded and bare in X-Forwarded-For.
pub proof fn lemma_own_values(policy: PolicyModel, fields: Seq<FieldModel>, rules: ForwardingRules)
    requires
        !policy.trust_incoming,
    ensures
        ({
            let ip = policy.client_ip;
            let v4 = is_ipv4(ip);
            let text = if v4 || !(rules.client is Rendered) {
                ip
            } else {
                ipv6_text(ipv6_segments(ip).unwrap())
            };
            let usable = {
                &&& v4 || ipv6_segments(ip) is Some
                &&& v4 || !(rules.client is Canonical) || ipv6_text(ipv6_segments(ip).unwrap())
                    == ip
                &&& policy.proto == utf8("http"@) || policy.proto == utf8("https"@)
                &&& endpoint(policy.host) is Some
            };
            let node = if v4 {
                text
            } else {
                utf8("\"["@) + text + utf8("]\""@)
            };
            let forwarded = utf8("for="@) + node + utf8(";proto="@) + policy.proto + utf8(
                ";host=\""@,
            ) + policy.host + utf8("\""@);
            let read = applied(policy, fields, rules);
            &&& !usable ==> read == Err::<ForwardingModel, Fault>(Fault::InvalidForwardingInput)
            &&& usable && forwarded.len() <= 1024 ==> read == Ok::<ForwardingModel, Fault>(
                ForwardingModel {
                    forwarded,
                    x_forwarded_for: text,
                    x_forwarded_proto: policy.proto,
                    x_forwarded_host: policy.host,
                },
            )
            &&& usable && forwarded.len() > 1024 ==> read == Err::<ForwardingModel, Fault>(
                Fault::LimitExceeded {
                    limit: "forwarding_value_bytes"@,
                    max: 1024,
                    actual: if forwarded.len() <= usize::MAX {
                        forwarded.len() as int
                    } else {
                        usize::MAX as int
                    },
                },
            )
        }),
{
    if client_node(policy.client_ip, rules.client) is Some && is_usable(policy) {
        let node = client_node(policy.client_ip, rules.client).unwrap();
        lemma_endpoint_bytes(policy.host);
        lemma_host_unescaped(policy.host);
        let added = additions(node, policy);
        lemma_first_over(added, 0);
        assert(added[0] == hop(node, policy.proto, policy.host));
        assert(added[1] == node.text);
        assert(added[2] == policy.proto);
        assert(added[3] == policy.host);
        assert(added[1].len() <= added[0].len());
        assert(added[2].len() <= added[0].len());
        assert(added[3].len() <= added[0].len());
    }
}

/// Whether a value is what a boundary would say by itself, behind the value of the one field of
/// that name where there is one.
pub open spec fn extends(
    fields: Seq<FieldModel>,
    name: Seq<u8>,
    value: Seq<u8>,
    own: Seq<u8>,
) -> bool {
    ||| value == own && forall|j: int| 0 <= j < fields.len() ==> (#[trigger] fields[j]).name != name
    ||| exists|i: int|
        {
            &&& 0 <= i < fields.len()
            &&& (#[trigger] fields[i]).name == name
            &&& value == fields[i].value + seq![0x2cu8, 0x20u8] + own
            &&& forall|j: int|
                0 <= j < fields.len() && j != i ==> (#[trigger] fields[j]).name != name
        }
}

/// Where incoming fields are trusted, each of the four values follows that of the one incoming
/// field of its name, behind a comma and a space; a second field of a name is refused.
pub proof fn lemma_trusted_values(
    policy: PolicyModel,
    fields: Seq<FieldModel>,
    rules: ForwardingRules,
)
    requires
        policy.trust_incoming,
        !rules.any_case || forall|i: int|
            0 <= i < fields.len() ==> lowered((#[trigger] fields[i]).name) == fields[i].name,
    ensures
        applied(policy, fields, rules) matches Ok(read) ==> {
            let alone = applied(PolicyModel { trust_incoming: false, ..policy }, fields, rules);
            &&& alone is Ok
            &&& extends(fields, utf8("forwarded"@), read.forwarded, alone->Ok_0.forwarded)
            &&& extends(
                fields,
                utf8("x-forwarded-for"@),
                read.x_forwarded_for,
                alone->Ok_0.x_forwarded_for,
            )
            &&& extends(
                fields,
                utf8("x-forwarded-proto"@),
                read.x_forwarded_proto,
                alone->Ok_0.x_forwarded_proto,
            )
            &&& extends(
                fields,
                utf8("x-forwarded-host"@),
                read.x_forwarded_host,
                alone->Ok_0.x_forwarded_host,
            )
        },
{
    if applied(policy, fields, rules) is Ok {
        lemma_extends(policy, fields, rules, 0);
        lemma_extends(policy, fields, rules, 1);
        lemma_extends(policy, fields, rules, 2);
        lemma_extends(policy, fields, rules, 3);
    }
}

proof fn lemma_extends(
    policy: PolicyModel,
    fields: Seq<FieldModel>,
    rules: ForwardingRules,
    k: int,
)
    requires
        policy.trust_incoming,
        !rules.any_case || forall|i: int|
            0 <= i < fields.len() ==> lowered((#[trigger] fields[i]).name) == fields[i].name,
        applied(policy, fields, rules) is Ok,
        0 <= k < 4,
    ensures
        ({
            let alone = applied(PolicyModel { trust_incoming: false, ..policy }, fields, rules);
            &&& alone is Ok
            &&& extends(
                fields,
                utf8(slot_text(k)),
                values_of(applied(policy, fields, rules)->Ok_0)[k],
                values_of(alone->Ok_0)[k],
            )
        }),
{
    reveal_strlit(", ");
    lemma_ascii_literal(", "@);
    assert(utf8(", "@) =~= seq![0x2cu8, 0x20u8]);
    lemma_trusted_values_are_extended(policy, fields, rules, k);
    let name = utf8(slot_text(k));
    let value = values_of(applied(policy, fields, rules)->Ok_0)[k];
    let alone = applied(PolicyModel { trust_incoming: false, ..policy }, fields, rules);
    let own = values_of(alone->Ok_0)[k];
    if !(is_absent(fields, 0, name) && value == own) {
        let i = choose|i: int| #[trigger]
            is_only(fields, 0, i, name) && value == fields[i].value + utf8(", "@) + own;
        assert(fields[i].name == name);
        assert forall|j: int| 0 <= j < fields.len() && j != i implies (#[trigger] fields[j]).name
            != name by {}
    }
}

/// Whether a text holds anything but spaces.
pub open spec fn says_something(s: Seq<u8>) -> bool {
    exists|j: int| 0 <= j < s.len() && #[trigger] s[j] != 0x20
}

/// Whether an incoming value is one to be extended: at most 1024 printable ASCII bytes, of which
/// no part between commas is empty or all spaces.
pub open spec fn is_extensible(value: Seq<u8>) -> bool {
    &&& value.len() <= 1024
    &&& forall|i: int| 0 <= i < value.len() ==> 0x20 <= #[trigger] value[i] <= 0x7e
    &&& forall|k: int|
        0 <= k < split(value, 0x2c).len() ==> says_something(#[trigger] split(value, 0x2c)[k])
}

pub(crate) proof fn lemma_extensible(value: Seq<u8>)
    ensures
        is_extensible(value) <==> crate::forwarding::value_fault(value) is None,
{
    let pieces = split(value, 0x2c);
    assert((forall|i: int| 0 <= i < value.len() ==> 0x20 <= #[trigger] value[i] <= 0x7e) <==> all_in(
        value,
        ByteClass::Printable,
    )) by {
        if all_in(value, ByteClass::Printable) {
            assert forall|i: int| 0 <= i < value.len() implies 0x20 <= #[trigger] value[i]
                <= 0x7e by {
                assert(ByteClass::Printable.has(value[i]));
            }
        }
    }
    assert forall|k: int| 0 <= k < pieces.len() implies says_something(#[trigger] pieces[k])
        == !is_blank(pieces[k]) by {
        let piece = pieces[k];
        if !is_blank(piece) {
            let j = choose|j: int|
                0 <= j < piece.len() && !ByteClass::Only(' ' as u8).has(#[trigger] piece[j]);
            assert(piece[j] != 0x20);
        }
        if says_something(piece) {
            let j = choose|j: int| 0 <= j < piece.len() && #[trigger] piece[j] != 0x20;
            assert(!ByteClass::Only(' ' as u8).has(piece[j]));
        }
    }
    if is_extensible(value) {
        assert forall|i: int| 0 <= i < split(value, ',' as u8).len() implies !is_blank(
            #[trigger] split(value, ',' as u8)[i],
        ) by {
            assert(says_something(pieces[i]));
        }
        assert(is_list(value));
    }
    if is_list(value) && value.len() <= 1024 {
        assert forall|k: int| 0 <= k < split(value, 0x2c).len() implies says_something(
            #[trigger] split(value, 0x2c)[k],
        ) by {
            assert(!is_blank(split(value, ',' as u8)[k]));
        }
        assert(is_extensible(value));
    }
}

/// Whether a name is one of the four that are extended.
pub open spec fn is_extended_name(name: Seq<u8>) -> bool {
    name == utf8("forwarded"@) || name == utf8("x-forwarded-for"@) || name == utf8(
        "x-forwarded-proto"@,
    ) || name == utf8("x-forwarded-host"@)
}

proof fn lemma_all_gathered(
    fields: Seq<FieldModel>,
    from: int,
    slots: Seq<Option<Seq<u8>>>,
    rules: ForwardingRules,
)
    requires
        0 <= from <= fields.len(),
        slots.len() == 4,
        forall|i: int|
            0 <= i < fields.len() ==> lowered((#[trigger] fields[i]).name) == fields[i].name,
        forall|i: int|
            0 <= i < fields.len() && is_extended_name((#[trigger] fields[i]).name)
                ==> is_extensible(fields[i].value),
        forall|i: int, j: int|
            0 <= i < j < fields.len() && is_extended_name((#[trigger] fields[i]).name)
                ==> fields[i].name != (#[trigger] fields[j]).name,
        forall|k: int, i: int|
            0 <= k < 4 && #[trigger] slots[k] is Some && from <= i < fields.len() ==> utf8(
                slot_text(k),
            ) != (#[trigger] fields[i]).name,
    ensures
        gathered(fields, from, slots, rules) is Ok,
    decreases fields.len() - from,
{
    if from < fields.len() {
        let field = fields[from];
        assert(slot_of(field.name, rules.any_case) == slot_of(field.name, false));
        lemma_slot_names(field.name);
        match slot_of(field.name, rules.any_case) {
            None => {
                lemma_all_gathered(fields, from + 1, slots, rules);
            },
            Some(slot) => {
                assert(field.name == utf8(slot_text(slot)));
                assert(is_extended_name(field.name));
                lemma_extensible(field.value);
                let next = slots.update(slot, Some(field.value));
                assert forall|k: int, i: int|
                    0 <= k < 4 && #[trigger] next[k] is Some && from + 1 <= i
                        < fields.len() implies utf8(slot_text(k)) != (
                #[trigger] fields[i]).name by {
                    if k == slot {
                        assert(fields[from].name != fields[i].name);
                    } else {
                        assert(slots[k] is Some);
                    }
                }
                if slots[slot] is Some {
                    assert(utf8(slot_text(slot)) != fields[from].name);
                }
                lemma_all_gathered(fields, from + 1, next, rules);
            },
        }
    }
}

/// Trusted fields are taken wherever they can be: where each of the four names comes once at
/// most, each such value may be extended, and what is to be said fits in 1024 bytes each time.
pub proof fn lemma_trusted_values_are_taken(
    policy: PolicyModel,
    fields: Seq<FieldModel>,
    rules: ForwardingRules,
)
    requires
        policy.trust_incoming,
        forall|i: int|
            0 <= i < fields.len() ==> lowered((#[trigger] fields[i]).name) == fields[i].name,
        forall|i: int|
            0 <= i < fields.len() && is_extended_name((#[trigger] fields[i]).name)
                ==> is_extensible(fields[i].value),
        forall|i: int, j: int|
            0 <= i < j < fields.len() && is_extended_name((#[trigger] fields[i]).name)
                ==> fields[i].name != (#[trigger] fields[j]).name,
        applied(PolicyModel { trust_incoming: false, ..policy }, fields, rules) is Ok,
        ({
            let alone = applied(
                PolicyModel { trust_incoming: false, ..policy },
                fields,
                rules,
            )->Ok_0;
            forall|i: int| #![trigger fields[i]]
                0 <= i < fields.len() ==> {
                    &&& fields[i].name == utf8("forwarded"@) ==> fields[i].value.len() + 2
                        + alone.forwarded.len() <= 1024
                    &&& fields[i].name == utf8("x-forwarded-for"@) ==> fields[i].value.len() + 2
                        + alone.x_forwarded_for.len() <= 1024
                    &&& fields[i].name == utf8("x-forwarded-proto"@) ==> fields[i].value.len() + 2
                        + alone.x_forwarded_proto.len() <= 1024
                    &&& fields[i].name == utf8("x-forwarded-host"@) ==> fields[i].value.len() + 2
                        + alone.x_forwarded_host.len() <= 1024
                }
        }),
    ensures
        applied(policy, fields, rules) is Ok,
{
    let untrusting = PolicyModel { trust_incoming: false, ..policy };
    let node = client_node(policy.client_ip, rules.client).unwrap();
    let added = additions(node, policy);
    assert(additions(node, untrusting) == added);
    lemma_all_gathered(fields, 0, no_slots(), rules);
    let slots = gathered(fields, 0, no_slots(), rules)->Ok_0;
    let values = joined_all(slots, added);
    lemma_first_over(added, 0);
    lemma_first_over(values, 0);
    let alone = applied(untrusting, fields, rules)->Ok_0;
    assert(values_of(alone) =~= added);
    reveal_strlit(", ");
    lemma_ascii_literal(", "@);
    assert forall|k: int| 0 <= k < values.len() implies (#[trigger] values[k]).len() <= 1024 by {
        let name = utf8(slot_text(k));
        lemma_gathered_is_only(fields, 0, no_slots(), rules, k);
        assert(values[k] == crate::forwarding::joined(slots[k], added[k]));
        assert(added[k].len() <= 1024);
        assert(added[k] == values_of(alone)[k]);
        if !(is_absent(fields, 0, name) && slots[k] == no_slots()[k]) {
            let i = choose|i: int| #[trigger]
                is_only(fields, 0, i, name) && slots[k] == Some(fields[i].value);
            assert(fields[i].name == name);
        }
    }
}

/// The fields with their names in lower case.
pub open spec fn with_lower_names(fields: Seq<FieldModel>) -> Seq<FieldModel> {
    Seq::new(
        fields.len(),
        |i: int| FieldModel { name: lowered(fields[i].name), value: fields[i].value },
    )
}

proof fn lemma_gathered_in_lower(
    fields: Seq<FieldModel>,
    from: int,
    slots: Seq<Option<Seq<u8>>>,
    rules: ForwardingRules,
)
    requires
        0 <= from <= fields.len(),
        rules.any_case,
    ensures
        gathered(fields, from, slots, rules) == gathered(
            with_lower_names(fields),
            from,
            slots,
            rules,
        ),
    decreases fields.len() - from,
{
    if from < fields.len() {
        let other = with_lower_names(fields);
        lemma_lowered_bytes(fields[from].name);
        match slot_of(fields[from].name, true) {
            None => lemma_gathered_in_lower(fields, from + 1, slots, rules),
            Some(slot) => lemma_gathered_in_lower(
                fields,
                from + 1,
                slots.update(slot, Some(fields[from].value)),
                rules,
            ),
        }
    }
}

/// Where names are recognized in any case, a request is treated as one with its names in lower
/// case.
pub proof fn lemma_names_in_any_case(
    policy: PolicyModel,
    fields: Seq<FieldModel>,
    rules: ForwardingRules,
)
    requires
        rules.any_case,
    ensures
        applied(policy, fields, rules) == applied(policy, with_lower_names(fields), rules),
{
    lemma_gathered_in_lower(fields, 0, no_slots(), rules);
}

/// One trusted field that cannot be extended is refused: for its length above 1024 bytes, else as
/// an input that is not a list.
pub proof fn lemma_trusted_value_is_refused(
    policy: PolicyModel,
    fields: Seq<FieldModel>,
    i: int,
    rules: ForwardingRules,
)
    requires
        policy.trust_incoming,
        applied(PolicyModel { trust_incoming: false, ..policy }, fields, rules) is Ok,
        0 <= i < fields.len(),
        is_extended_name(fields[i].name),
        lowered(fields[i].name) == fields[i].name,
        !is_extensible(fields[i].value),
        forall|j: int|
            0 <= j < i ==> !is_extended_name(lowered((#[trigger] fields[j]).name))
                && !is_extended_name(fields[j].name),
    ensures
        applied(policy, fields, rules) == Err::<ForwardingModel, Fault>(
            if fields[i].value.len() > 1024 {
                Fault::LimitExceeded {
                    limit: "forwarding_value_bytes"@,
                    max: 1024,
                    actual: if fields[i].value.len() <= usize::MAX {
                        fields[i].value.len() as int
                    } else {
                        usize::MAX as int
                    },
                }
            } else {
                Fault::InvalidForwardingInput
            },
        ),
{
    lemma_extensible(fields[i].value);
    lemma_reached(fields, 0, i, rules);
    lemma_slot_names(fields[i].name);
    assert(no_slots()[0] is None && no_slots()[1] is None && no_slots()[2] is None
        && no_slots()[3] is None);
}

proof fn lemma_reached(fields: Seq<FieldModel>, from: int, i: int, rules: ForwardingRules)
    requires
        0 <= from <= i < fields.len(),
        forall|j: int|
            0 <= j < i ==> !is_extended_name(lowered((#[trigger] fields[j]).name))
                && !is_extended_name(fields[j].name),
    ensures
        gathered(fields, from, no_slots(), rules) == gathered(fields, i, no_slots(), rules),
    decreases i - from,
{
    if from < i {
        assert(!is_extended_name(lowered(fields[from].name)) && !is_extended_name(
            fields[from].name,
        ));
        lemma_reached(fields, from + 1, i, rules);
    }
}

/// A second trusted field of a name is refused where what comes before it was in order.
pub proof fn lemma_trusted_name_comes_once(
    policy: PolicyModel,
    fields: Seq<FieldModel>,
    i: int,
    j: int,
    rules: ForwardingRules,
)
    requires
        policy.trust_incoming,
        0 <= i < j < fields.len(),
        is_extended_name(fields[i].name),
        fields[j].name == fields[i].name,
        lowered(fields[i].name) == fields[i].name,
    ensures
        applied(policy, fields, rules) is Err,
{
    lemma_once(fields, 0, no_slots(), i, j, rules);
}

proof fn lemma_once(
    fields: Seq<FieldModel>,
    from: int,
    slots: Seq<Option<Seq<u8>>>,
    i: int,
    j: int,
    rules: ForwardingRules,
)
    requires
        0 <= from <= j,
        0 <= i < j < fields.len(),
        slots.len() == 4,
        is_extended_name(fields[i].name),
        fields[j].name == fields[i].name,
        lowered(fields[i].name) == fields[i].name,
        from > i ==> slots[slot_of(fields[i].name, false).unwrap()] is Some,
    ensures
        gathered(fields, from, slots, rules) is Err,
    decreases j - from,
{
    lemma_slot_names(fields[i].name);
    match slot_of(fields[from].name, rules.any_case) {
        None => lemma_once(fields, from + 1, slots, i, j, rules),
        Some(slot) => {
            if from < j {
                lemma_once(
                    fields,
                    from + 1,
                    slots.update(slot, Some(fields[from].value)),
                    i,
                    j,
                    rules,
                );
            }
        },
    }
}

} // verus!
