//! Forwarding policy through one table of field rules.

use vstd::prelude::*;
use crate::bytes::{ByteClass, all_in};
use crate::forwarding::{
    ClientNode, ClientRule, FORWARDING_VALUE_LIMIT, ForwardingRules, additions, applied, bytes_of,
    check_limit, empty_slots, first_over, gathered, hop, hop_size, is_host_text, is_list_value,
    is_proto_text, join_text, joined, joined_all, joined_size, lemma_additions_printable,
    lemma_over_step, lemma_slot_found, no_slots, over_limit, placed, read_client, render_hop,
    result_of_four, slot_name, slot_of, slot_text, slots_of, slots_valid, value_fault,
};
use crate::text::{same_text, utf8};
use crate::types::{
    Fault, ForwardingPolicy, ForwardingResult, HeaderBlock, HeaderField, PolyguardError, Result,
    fields_of, outcome,
};

verus! {

#[derive(Clone, Copy, PartialEq, Eq, Structural)]
enum Transition {
    Replace,
    Extend,
}

/// Apply the trusted-boundary forwarding policy through one field decision table.
#[verifier::spinoff_prover]
#[verifier::rlimit(80)]
pub fn apply_forwarding_policy(policy: &ForwardingPolicy, headers: &HeaderBlock) -> (result: Result<
    ForwardingResult,
>)
    ensures
        outcome(result) == applied(
            policy@,
            fields_of(headers.fields@),
            (ForwardingRules {
                client: ClientRule::Rendered,
                any_case: false,
                repeat_first: true,
                hop_alone: true,
            }),
        ),
{
    let ghost rules = table_rules();
    let ghost wanted = applied(policy@, fields_of(headers.fields@), rules);
    let node: ClientNode = match read_client(policy.client_ip.as_str().as_bytes(), ClientRule::Rendered) {
        Some(node) => node,
        None => return Err(PolyguardError::InvalidForwardingInput),
    };
    if !is_proto_text(policy.proto.as_str()) || !is_host_text(policy.host.as_str()) {
        return Err(PolyguardError::InvalidForwardingInput);
    }
    proof {
        lemma_additions_printable(policy@, rules.client);
    }
    let previous: Vec<Option<&[u8]>> = if policy.trust_incoming {
        collect_trusted_values(headers)?
    } else {
        empty_slots()
    };
    let proto: &[u8] = policy.proto.as_str().as_bytes();
    let host: &[u8] = policy.host.as_str().as_bytes();
    let forwarded: Vec<u8> = render_forwarded_hop(&node, proto, host)?;
    let added: [&[u8]; 4] = [forwarded.as_slice(), node.text.as_slice(), proto, host];
    let transition: Transition = if policy.trust_incoming {
        Transition::Extend
    } else {
        Transition::Replace
    };
    proof {
        let values = joined_all(slots_of(previous@), additions(node@, policy@));
        if !policy.trust_incoming {
            assert(values =~= additions(node@, policy@));
        }
        assert(wanted == placed(values));
    }
    fill_outputs(transition, &previous, added, Ghost(additions(node@, policy@)))
}

/// Fills the four outputs by the table's order.
fn fill_outputs(
    transition: Transition,
    previous: &Vec<Option<&[u8]>>,
    added: [&[u8]; 4],
    Ghost(wanted): Ghost<Seq<Seq<u8>>>,
) -> (result: Result<ForwardingResult>)
    requires
        previous@.len() == 4,
        slots_valid(slots_of(previous@)),
        transition == Transition::Replace ==> forall|k: int|
            0 <= k < 4 ==> bytes_of(#[trigger] previous@[k]) is None,
        wanted.len() == 4,
        forall|k: int| 0 <= k < 4 ==> (#[trigger] added@[k])@ == wanted[k],
        forall|k: int| 0 <= k < 4 ==> all_in(#[trigger] wanted[k], ByteClass::Printable),
    ensures
        outcome(result) == placed(joined_all(slots_of(previous@), wanted)),
{
    let ghost values = joined_all(slots_of(previous@), wanted);
    let mut outputs: Vec<String> = Vec::new();
    let mut slot: usize = 0;
    while slot < 4
        invariant
            slot <= 4,
            outputs@.len() == slot,
            previous@.len() == 4,
            slots_valid(slots_of(previous@)),
            transition == Transition::Replace ==> forall|k: int|
                0 <= k < 4 ==> bytes_of(#[trigger] previous@[k]) is None,
            added@.len() == 4,
            wanted.len() == 4,
            forall|k: int| 0 <= k < 4 ==> (#[trigger] added@[k])@ == wanted[k],
            forall|k: int| 0 <= k < 4 ==> all_in(#[trigger] wanted[k], ByteClass::Printable),
            values == joined_all(slots_of(previous@), wanted),
            first_over(values, 0) == first_over(values, slot as int),
            forall|k: int| 0 <= k < slot ==> utf8((#[trigger] outputs@[k])@) == values[k],
        decreases 4 - slot,
    {
        assert(bytes_of(previous@[slot as int]) == slots_of(previous@)[slot as int]);
        assert(values[slot as int] == joined(
            slots_of(previous@)[slot as int],
            wanted[slot as int],
        ));
        let output: String = transition_value(transition, previous[slot], added[slot])?;
        proof {
            lemma_over_step(values, slot as int);
        }
        outputs.push(output);
        slot += 1;
    }
    Ok(result_of_four(outputs))
}

spec fn table_rules() -> ForwardingRules {
    ForwardingRules {
        client: ClientRule::Rendered,
        any_case: false,
        repeat_first: true,
        hop_alone: true,
    }
}

/// The incoming values of the four fields.
fn collect_trusted_values<'a>(headers: &'a HeaderBlock) -> (result: Result<Vec<Option<&'a [u8]>>>)
    ensures
        match result {
            Ok(values) => {
                &&& values@.len() == 4
                &&& slots_valid(slots_of(values@))
                &&& gathered(fields_of(headers.fields@), 0, no_slots(), table_rules()) == Ok::<
                    Seq<Option<Seq<u8>>>,
                    Fault,
                >(slots_of(values@))
            },
            Err(error) => gathered(fields_of(headers.fields@), 0, no_slots(), table_rules())
                == Err::<Seq<Option<Seq<u8>>>, Fault>(error@),
        },
{
    let ghost fields = fields_of(headers.fields@);
    let ghost rules = table_rules();
    let mut values: Vec<Option<&'a [u8]>> = empty_slots();
    let mut index: usize = 0;
    while index < headers.fields.len()
        invariant
            index <= headers.fields@.len(),
            fields == fields_of(headers.fields@),
            rules == table_rules(),
            values@.len() == 4,
            slots_valid(slots_of(values@)),
            gathered(fields, 0, no_slots(), rules) == gathered(
                fields,
                index as int,
                slots_of(values@),
                rules,
            ),
        decreases headers.fields@.len() - index,
    {
        let field: &'a HeaderField = &headers.fields[index];
        assert(fields[index as int] == field@);
        if let Some(slot) = find_rule(field.name.as_str()) {
            assert(slots_of(values@)[slot as int] == bytes_of(values@[slot as int]));
            if values[slot].is_some() {
                return Err(PolyguardError::InvalidForwardingInput);
            }
            validate_trusted_value(field.value.as_slice())?;
            let ghost before = slots_of(values@);
            values.set(slot, Some(field.value.as_slice()));
            assert(slots_of(values@) =~= before.update(slot as int, Some(field.value@)));
        }
        index += 1;
    }
    Ok(values)
}

/// Looks a name up in the table of field rules.
fn find_rule(name: &str) -> (slot: Option<usize>)
    ensures
        match slot {
            Some(slot) => slot < 4 && slot_of(utf8(name@), false) == Some(slot as int),
            None => slot_of(utf8(name@), false) is None,
        },
{
    let mut slot: usize = 0;
    while slot < 4
        invariant
            slot <= 4,
            forall|k: int| 0 <= k < slot ==> utf8(name@) != utf8(#[trigger] slot_text(k)),
        decreases 4 - slot,
    {
        if same_text(name, slot_name(slot)) {
            proof {
                lemma_slot_found(utf8(name@), false, slot as int);
            }
            return Some(slot);
        }
        slot += 1;
    }
    proof {
        lemma_slot_found(utf8(name@), false, 4);
    }
    None
}

fn validate_trusted_value(value: &[u8]) -> (result: Result<()>)
    ensures
        match result {
            Ok(_) => value_fault(value@) is None,
            Err(error) => value_fault(value@) == Some(error@),
        },
{
    check_limit(value.len())?;
    if !is_list_value(value) {
        return Err(PolyguardError::InvalidForwardingInput);
    }
    Ok(())
}

/// The hop, which has to keep the limit by itself.
fn render_forwarded_hop(node: &ClientNode, proto: &[u8], host: &[u8]) -> (result: Result<Vec<u8>>)
    ensures
        match result {
            Ok(text) => text@ == hop(node@, proto@, host@) && text@.len() <= FORWARDING_VALUE_LIMIT,
            Err(error) => hop(node@, proto@, host@).len() > FORWARDING_VALUE_LIMIT && error@
                == over_limit(hop(node@, proto@, host@).len() as int),
        },
{
    check_limit(hop_size(node, proto, host))?;
    Ok(render_hop(node, proto, host))
}

/// One field's value on the way out.
fn transition_value(transition: Transition, previous: Option<&[u8]>, addition: &[u8]) -> (result:
    Result<String>)
    requires
        transition == Transition::Replace ==> bytes_of(previous) is None,
        bytes_of(previous) matches Some(value) ==> value_fault(value) is None,
        all_in(addition@, ByteClass::Printable),
    ensures
        ({
            let value = joined(bytes_of(previous), addition@);
            match result {
                Ok(text) => utf8(text@) == value && value.len() <= FORWARDING_VALUE_LIMIT,
                Err(error) => value.len() > FORWARDING_VALUE_LIMIT && error@ == over_limit(
                    value.len() as int,
                ),
            }
        }),
{
    let prefix: Option<&[u8]> = match transition {
        Transition::Replace => None,
        Transition::Extend => previous,
    };
    check_limit(joined_size(prefix, addition.len()))?;
    Ok(join_text(prefix, addition))
}

} // verus!
