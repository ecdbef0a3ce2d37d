//! Forwarding policy by one transition out of the boundary's state.

use vstd::prelude::*;
use crate::bytes::{ByteClass, all_in};
use crate::forwarding::{
    ClientNode, ClientRule, FORWARDING_VALUE_LIMIT, ForwardingRules, additions, applied, bytes_of,
    check_limit, empty_slots, first_over, gathered, is_host_text, is_list_value, is_proto_text,
    join_text, joined, joined_all, joined_size, lemma_additions_printable, lemma_over_step,
    lemma_slot_found, no_slots, over_limit, placed, read_client, render_hop, result_of_four,
    slot_name, slot_of, slot_text, slots_of, slots_valid, value_fault,
};
use crate::text::{same_text, utf8};
use crate::types::{
    Fault, ForwardingPolicy, ForwardingResult, HeaderBlock, HeaderField, PolyguardError, Result,
    fields_of, outcome,
};

verus! {

/// What a boundary does with incoming values.
enum BoundaryState<'a> {
    Replace,
    Extend(Vec<Option<&'a [u8]>>),
}

impl<'a> BoundaryState<'a> {
    spec fn slots(self) -> Seq<Option<Seq<u8>>> {
        match self {
            BoundaryState::Replace => no_slots(),
            BoundaryState::Extend(values) => slots_of(values@),
        }
    }

    spec fn valid(self) -> bool {
        match self {
            BoundaryState::Replace => true,
            BoundaryState::Extend(values) => slots_valid(slots_of(values@)),
        }
    }

    /// The incoming value of a field.
    fn previous(&self, slot: usize) -> (value: Option<&'a [u8]>)
        requires
            self.valid(),
            slot < 4,
        ensures
            bytes_of(value) == self.slots()[slot as int],
            bytes_of(value) matches Some(bytes) ==> value_fault(bytes) is None,
    {
        match self {
            BoundaryState::Replace => None,
            BoundaryState::Extend(values) => {
                assert(slots_of(values@)[slot as int] == bytes_of(values@[slot as int]));
                values[slot]
            },
        }
    }
}

spec fn transition_rules() -> ForwardingRules {
    ForwardingRules {
        client: ClientRule::Canonical,
        any_case: false,
        repeat_first: false,
        hop_alone: false,
    }
}

/// Applies the forwarding policy: the boundary's state decides what becomes of each field.
#[verifier::spinoff_prover]
#[verifier::rlimit(80)]
pub fn apply_forwarding_policy(policy: &ForwardingPolicy, headers: &HeaderBlock) -> (result: Result<
    ForwardingResult,
>)
    ensures
        outcome(result) == applied(
            policy@,
            fields_of(headers.fields@),
            (ForwardingRules {
                client: ClientRule::Canonical,
                any_case: false,
                repeat_first: false,
                hop_alone: false,
            }),
        ),
{
    let ghost rules = transition_rules();
    let ghost wanted = applied(policy@, fields_of(headers.fields@), rules);
    let client: ClientNode = match read_client(
        policy.client_ip.as_str().as_bytes(),
        ClientRule::Canonical,
    ) {
        Some(node) => node,
        None => return Err(PolyguardError::InvalidForwardingInput),
    };
    if !is_proto_text(policy.proto.as_str()) {
        return Err(PolyguardError::InvalidForwardingInput);
    }
    if !is_host_text(policy.host.as_str()) {
        return Err(PolyguardError::InvalidForwardingInput);
    }
    proof {
        lemma_additions_printable(policy@, rules.client);
    }
    let proto: &[u8] = policy.proto.as_str().as_bytes();
    let host: &[u8] = policy.host.as_str().as_bytes();
    let forwarded: Vec<u8> = render_hop(&client, proto, host);
    let state: BoundaryState = if policy.trust_incoming {
        BoundaryState::Extend(collect_forwarding_headers(headers)?)
    } else {
        BoundaryState::Replace
    };
    let canonical: [&[u8]; 4] = [forwarded.as_slice(), client.text.as_slice(), proto, host];
    let ghost added = additions(client@, policy@);
    let ghost values = joined_all(state.slots(), added);
    proof {
        if !policy.trust_incoming {
            assert(values =~= added);
        }
        assert(wanted == placed(values));
    }
    transition_values(&state, canonical, Ghost(added))
}

/// The values that the boundary's state leads to.
fn transition_values(
    state: &BoundaryState<'_>,
    canonical: [&[u8]; 4],
    Ghost(added): Ghost<Seq<Seq<u8>>>,
) -> (result: Result<ForwardingResult>)
    requires
        state.valid(),
        added.len() == 4,
        forall|k: int| 0 <= k < 4 ==> (#[trigger] canonical@[k])@ == added[k],
        forall|k: int| 0 <= k < 4 ==> all_in(#[trigger] added[k], ByteClass::Printable),
    ensures
        outcome(result) == placed(joined_all(state.slots(), added)),
{
    let ghost values = joined_all(state.slots(), added);
    let mut outputs: Vec<String> = Vec::new();
    let mut slot: usize = 0;
    while slot < 4
        invariant
            slot <= 4,
            outputs@.len() == slot,
            state.valid(),
            canonical@.len() == 4,
            forall|k: int| 0 <= k < 4 ==> (#[trigger] canonical@[k])@ == added[k],
            forall|k: int| 0 <= k < 4 ==> all_in(#[trigger] added[k], ByteClass::Printable),
            values == joined_all(state.slots(), added),
            first_over(values, 0) == first_over(values, slot as int),
            forall|k: int| 0 <= k < slot ==> utf8((#[trigger] outputs@[k])@) == values[k],
        decreases 4 - slot,
    {
        let previous: Option<&[u8]> = state.previous(slot);
        assert(all_in(added[slot as int], ByteClass::Printable));
        assert(values[slot as int] == joined(bytes_of(previous), canonical@[slot as int]@));
        let output: String = transition_value(previous, canonical[slot])?;
        proof {
            lemma_over_step(values, slot as int);
        }
        outputs.push(output);
        slot += 1;
    }
    Ok(result_of_four(outputs))
}

fn collect_forwarding_headers<'a>(headers: &'a HeaderBlock) -> (result: Result<
    Vec<Option<&'a [u8]>>,
>)
    ensures
        match result {
            Ok(values) => {
                &&& values@.len() == 4
                &&& slots_valid(slots_of(values@))
                &&& gathered(fields_of(headers.fields@), 0, no_slots(), transition_rules()) == Ok::<
                    Seq<Option<Seq<u8>>>,
                    Fault,
                >(slots_of(values@))
            },
            Err(error) => gathered(fields_of(headers.fields@), 0, no_slots(), transition_rules())
                == Err::<Seq<Option<Seq<u8>>>, Fault>(error@),
        },
{
    let ghost fields = fields_of(headers.fields@);
    let ghost rules = transition_rules();
    let mut values: Vec<Option<&'a [u8]>> = empty_slots();
    let mut index: usize = 0;
    while index < headers.fields.len()
        invariant
            index <= headers.fields@.len(),
            fields == fields_of(headers.fields@),
            rules == transition_rules(),
            values@.len() == 4,
            slots_valid(slots_of(values@)),
            gathered(fields, 0, no_slots(), rules) == gathered(
                fields,
                index as int,
                slots_of(values@),
                rules,
            ),
        decreases headers.fields@.len() - index,
    {
        let field: &'a HeaderField = &headers.fields[index];
        assert(fields[index as int] == field@);
        index += 1;
        let slot: usize = find_slot(field.name.as_str());
        if slot == 4 {
            continue;
        }
        validate_incoming_value(field.value.as_slice())?;
        assert(slots_of(values@)[slot as int] == bytes_of(values@[slot as int]));
        if values[slot].is_some() {
            return Err(PolyguardError::InvalidForwardingInput);
        }
        let ghost before = slots_of(values@);
        values.set(slot, Some(field.value.as_slice()));
        assert(slots_of(values@) =~= before.update(slot as int, Some(field.value@)));
    }
    Ok(values)
}

/// The slot of a forwarding header; past the last where a name is none.
fn find_slot(name: &str) -> (slot: usize)
    ensures
        slot <= 4,
        slot < 4 ==> slot_of(utf8(name@), false) == Some(slot as int),
        slot == 4 ==> slot_of(utf8(name@), false) is None,
{
    let mut slot: usize = 0;
    while slot < 4 && !same_text(name, slot_name(slot))
        invariant
            slot <= 4,
            forall|k: int| 0 <= k < slot ==> utf8(name@) != utf8(#[trigger] slot_text(k)),
        decreases 4 - slot,
    {
        slot += 1;
    }
    proof {
        lemma_slot_found(utf8(name@), false, slot as int);
    }
    slot
}

fn validate_incoming_value(value: &[u8]) -> (result: Result<()>)
    ensures
        match result {
            Ok(_) => value_fault(value@) is None,
            Err(error) => value_fault(value@) == Some(error@),
        },
{
    check_limit(value.len())?;
    if is_list_value(value) {
        Ok(())
    } else {
        Err(PolyguardError::InvalidForwardingInput)
    }
}

fn transition_value(previous: Option<&[u8]>, canonical: &[u8]) -> (result: Result<String>)
    requires
        bytes_of(previous) matches Some(value) ==> value_fault(value) is None,
        all_in(canonical@, ByteClass::Printable),
    ensures
        ({
            let value = joined(bytes_of(previous), canonical@);
            match result {
                Ok(text) => utf8(text@) == value && value.len() <= FORWARDING_VALUE_LIMIT,
                Err(error) => value.len() > FORWARDING_VALUE_LIMIT && error@ == over_limit(
                    value.len() as int,
                ),
            }
        }),
{
    check_limit(joined_size(previous, canonical.len()))?;
    Ok(join_text(previous, canonical))
}

} // verus!
