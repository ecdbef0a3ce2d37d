//! Forwarding policy over a transition table of field occupancy.

use vstd::prelude::*;
use crate::bytes::{ByteClass, all_in, lowered, same_lowered};
use crate::forwarding::{
    ClientNode, ClientRule, ForwardingRules, additions, applied, bytes_of, check_limit,
    empty_slots, first_over, gathered, is_host_text, is_list_value, is_proto_text, join_text,
    joined, joined_all, joined_size, lemma_additions_printable, lemma_over_step, lemma_slot_found,
    no_slots, placed, read_client, render_hop, result_of_four, slot_name, slot_of, slot_text,
    slots_of, slots_valid, value_fault,
};
use crate::text::utf8;
use crate::types::{
    Fault, ForwardingPolicy, ForwardingResult, HeaderBlock, HeaderField, PolyguardError, Result,
    fields_of, outcome,
};

verus! {

#[derive(Clone, Copy, PartialEq, Eq, Structural)]
enum Occupancy {
    Vacant,
    Occupied,
}

#[derive(Clone, Copy, PartialEq, Eq, Structural)]
enum Transition {
    Store,
    RejectDuplicate,
}

impl Occupancy {
    /// What a recognized header does: this is the whole policy on repeated fields.
    fn transition(self) -> (transition: Transition)
        ensures
            transition == Transition::Store <==> self == Occupancy::Vacant,
    {
        match self {
            Occupancy::Vacant => Transition::Store,
            Occupancy::Occupied => Transition::RejectDuplicate,
        }
    }
}

spec fn model_rules() -> ForwardingRules {
    ForwardingRules {
        client: ClientRule::AsGiven,
        any_case: true,
        repeat_first: false,
        hop_alone: false,
    }
}

/// Applies the forwarding policy: the current values are formed first, and extended where the
/// policy trusts the incoming ones.
#[verifier::spinoff_prover]
#[verifier::rlimit(80)]
pub fn apply_forwarding_policy(policy: &ForwardingPolicy, headers: &HeaderBlock) -> (result: Result<
    ForwardingResult,
>)
    ensures
        outcome(result) == applied(
            policy@,
            fields_of(headers.fields@),
            (ForwardingRules {
                client: ClientRule::AsGiven,
                any_case: true,
                repeat_first: false,
                hop_alone: false,
            }),
        ),
{
    let ghost rules = model_rules();
    let ghost fields = fields_of(headers.fields@);
    let ghost wanted = applied(policy@, fields, rules);
    let client: ClientNode = match read_client(
        policy.client_ip.as_str().as_bytes(),
        ClientRule::AsGiven,
    ) {
        Some(node) => node,
        None => return Err(PolyguardError::InvalidForwardingInput),
    };
    if !is_proto_text(policy.proto.as_str()) || !is_host_text(policy.host.as_str()) {
        return Err(PolyguardError::InvalidForwardingInput);
    }
    proof {
        lemma_additions_printable(policy@, rules.client);
    }
    let proto: &[u8] = policy.proto.as_str().as_bytes();
    let host: &[u8] = policy.host.as_str().as_bytes();
    let forwarded: Vec<u8> = render_hop(&client, proto, host);
    let current: [&[u8]; 4] = [forwarded.as_slice(), client.text.as_slice(), proto, host];
    let ghost added = additions(client@, policy@);
    if !policy.trust_incoming {
        let slots: Vec<Option<&[u8]>> = empty_slots();
        assert(joined_all(slots_of(slots@), added) =~= added);
        return result_from_values(&slots, &current, Ghost(added));
    }
    let incoming: Vec<Option<&[u8]>> = read_incoming(headers)?;
    result_from_values(&incoming, &current, Ghost(added))
}

fn read_incoming<'a>(headers: &'a HeaderBlock) -> (result: Result<Vec<Option<&'a [u8]>>>)
    ensures
        match result {
            Ok(values) => {
                &&& values@.len() == 4
                &&& slots_valid(slots_of(values@))
                &&& gathered(fields_of(headers.fields@), 0, no_slots(), model_rules()) == Ok::<
                    Seq<Option<Seq<u8>>>,
                    Fault,
                >(slots_of(values@))
            },
            Err(error) => gathered(fields_of(headers.fields@), 0, no_slots(), model_rules())
                == Err::<Seq<Option<Seq<u8>>>, Fault>(error@),
        },
{
    let ghost fields = fields_of(headers.fields@);
    let ghost rules = model_rules();
    let mut incoming: Vec<Option<&'a [u8]>> = empty_slots();
    let mut index: usize = 0;
    while index < headers.fields.len()
        invariant
            index <= headers.fields@.len(),
            fields == fields_of(headers.fields@),
            rules == model_rules(),
            incoming@.len() == 4,
            slots_valid(slots_of(incoming@)),
            gathered(fields, 0, no_slots(), rules) == gathered(
                fields,
                index as int,
                slots_of(incoming@),
                rules,
            ),
        decreases headers.fields@.len() - index,
    {
        let field: &'a HeaderField = &headers.fields[index];
        assert(fields[index as int] == field@);
        if let Some(slot) = lookup_slot(field.name.as_str()) {
            validate_incoming_value(field.value.as_slice())?;
            assert(slots_of(incoming@)[slot as int] == bytes_of(incoming@[slot as int]));
            let occupancy: Occupancy = if incoming[slot].is_some() {
                Occupancy::Occupied
            } else {
                Occupancy::Vacant
            };
            match occupancy.transition() {
                Transition::Store => {
                    let ghost before = slots_of(incoming@);
                    incoming.set(slot, Some(field.value.as_slice()));
                    assert(slots_of(incoming@) =~= before.update(slot as int, Some(field.value@)));
                },
                Transition::RejectDuplicate => {
                    return Err(PolyguardError::InvalidForwardingInput);
                },
            }
        }
        index += 1;
    }
    Ok(incoming)
}

/// Looks a name up whatever its case.
fn lookup_slot(name: &str) -> (slot: Option<usize>)
    ensures
        match slot {
            Some(slot) => slot < 4 && slot_of(utf8(name@), true) == Some(slot as int),
            None => slot_of(utf8(name@), true) is None,
        },
{
    let mut slot: usize = 0;
    while slot < 4
        invariant
            slot <= 4,
            forall|k: int| 0 <= k < slot ==> lowered(utf8(name@)) != utf8(#[trigger] slot_text(k)),
        decreases 4 - slot,
    {
        if same_lowered(name.as_bytes(), slot_name(slot).as_bytes()) {
            proof {
                lemma_slot_found(utf8(name@), true, slot as int);
            }
            return Some(slot);
        }
        slot += 1;
    }
    proof {
        lemma_slot_found(utf8(name@), true, 4);
    }
    None
}

fn validate_incoming_value(value: &[u8]) -> (result: Result<()>)
    ensures
        match result {
            Ok(_) => value_fault(value@) is None,
            Err(error) => value_fault(value@) == Some(error@),
        },
{
    check_limit(value.len())?;
    if is_list_value(value) {
        Ok(())
    } else {
        Err(PolyguardError::InvalidForwardingInput)
    }
}

/// The values of the four fields, each bounded by the limit.
fn result_from_values(
    incoming: &Vec<Option<&[u8]>>,
    current: &[&[u8]; 4],
    Ghost(added): Ghost<Seq<Seq<u8>>>,
) -> (result: Result<ForwardingResult>)
    requires
        incoming@.len() == 4,
        slots_valid(slots_of(incoming@)),
        forall|k: int| 0 <= k < 4 ==> (#[trigger] current@[k])@ == added[k],
        forall|k: int| 0 <= k < 4 ==> all_in(#[trigger] added[k], ByteClass::Printable),
    ensures
        outcome(result) == placed(joined_all(slots_of(incoming@), added)),
{
    let ghost values = joined_all(slots_of(incoming@), added);
    let mut outputs: Vec<String> = Vec::new();
    let mut slot: usize = 0;
    while slot < 4
        invariant
            slot <= 4,
            outputs@.len() == slot,
            incoming@.len() == 4,
            slots_valid(slots_of(incoming@)),
            current@.len() == 4,
            forall|k: int| 0 <= k < 4 ==> (#[trigger] current@[k])@ == added[k],
            forall|k: int| 0 <= k < 4 ==> all_in(#[trigger] added[k], ByteClass::Printable),
            values == joined_all(slots_of(incoming@), added),
            first_over(values, 0) == first_over(values, slot as int),
            forall|k: int| 0 <= k < slot ==> utf8((#[trigger] outputs@[k])@) == values[k],
        decreases 4 - slot,
    {
        assert(slots_of(incoming@)[slot as int] == bytes_of(incoming@[slot as int]));
        assert(all_in(added[slot as int], ByteClass::Printable));
        assert(values[slot as int] == joined(
            bytes_of(incoming@[slot as int]),
            current@[slot as int]@,
        ));
        check_limit(joined_size(incoming[slot], current[slot].len()))?;
        proof {
            lemma_over_step(values, slot as int);
        }
        outputs.push(join_text(incoming[slot], current[slot]));
        slot += 1;
    }
    Ok(result_of_four(outputs))
}

} // verus!
