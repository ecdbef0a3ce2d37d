//! Forwarding policy over positions and sizes.

use vstd::prelude::*;
use crate::bytes::{ByteClass, all_in};
use crate::forwarding::{
    ClientNode, ClientRule, FORWARDING_VALUE_LIMIT, ForwardingRules, additions, applied, bytes_of,
    check_limit, client_node, first_over, gathered, hop, hop_size, is_host_text, is_list_by_scan,
    is_proto_text, is_usable, join_text, joined, joined_all, joined_size,
    lemma_additions_printable, lemma_over_step, no_slots, over_limit, placed, read_client,
    render_hop, slot_of, value_fault,
};
use crate::text::{same_text, utf8};
use crate::types::{
    Fault, FieldModel, ForwardingPolicy, ForwardingResult, HeaderBlock, HeaderField,
    PolyguardError, Result, fields_of, outcome,
};

verus! {

/// The position of a field that is not there.
const ABSENT: usize = usize::MAX;

/// The incoming values at four positions.
spec fn slots_at(fields: Seq<FieldModel>, positions: Seq<usize>) -> Seq<Option<Seq<u8>>> {
    Seq::new(
        4,
        |k: int|
            if positions[k] == ABSENT {
                None
            } else {
                Some(fields[positions[k] as int].value)
            },
    )
}

/// Whether positions are those of acceptable values.
spec fn positions_valid(fields: Seq<FieldModel>, positions: Seq<usize>) -> bool {
    &&& positions.len() == 4
    &&& forall|k: int|
        0 <= k < 4 ==> ((#[trigger] positions[k]) != ABSENT ==> positions[k] < fields.len()
            && value_fault(fields[positions[k] as int].value) is None)
}

spec fn boundary_rules() -> ForwardingRules {
    ForwardingRules {
        client: ClientRule::AsGiven,
        any_case: false,
        repeat_first: false,
        hop_alone: true,
    }
}

/// Applies the forwarding boundary after reducing all external input to bounded primitive facts.
#[verifier::spinoff_prover]
#[verifier::rlimit(80)]
pub fn apply_forwarding_policy(policy: &ForwardingPolicy, headers: &HeaderBlock) -> (result: Result<
    ForwardingResult,
>)
    ensures
        outcome(result) == applied(
            policy@,
            fields_of(headers.fields@),
            (ForwardingRules {
                client: ClientRule::AsGiven,
                any_case: false,
                repeat_first: false,
                hop_alone: true,
            }),
        ),
{
    let ghost rules = boundary_rules();
    let ghost fields = fields_of(headers.fields@);
    let ghost wanted = applied(policy@, fields, rules);
    let node: ClientNode = validate_policy(policy)?;
    proof {
        lemma_additions_printable(policy@, rules.client);
    }
    let old_fields: [usize; 4] = match policy.trust_incoming {
        false => [ABSENT, ABSENT, ABSENT, ABSENT],
        true => validate_trusted_headers(headers)?,
    };
    let proto: &[u8] = policy.proto.as_str().as_bytes();
    let host: &[u8] = policy.host.as_str().as_bytes();
    let ghost added = additions(node@, policy@);
    let ghost values = joined_all(slots_at(fields, old_fields@), added);
    proof {
        if !policy.trust_incoming {
            assert(values =~= added);
        }
    }
    let forwarded: Vec<u8> = make_hop(&node, proto, host)?;
    assert(wanted == placed(values));
    let sources: [&[u8]; 4] = [forwarded.as_slice(), node.text.as_slice(), proto, host];
    write_outputs(old_fields, sources, headers, Ghost(added))
}

/// Each incoming value with what is added to it, once all are seen to keep the limit.
fn write_outputs(
    old_fields: [usize; 4],
    sources: [&[u8]; 4],
    headers: &HeaderBlock,
    Ghost(added): Ghost<Seq<Seq<u8>>>,
) -> (result: Result<ForwardingResult>)
    requires
        positions_valid(fields_of(headers.fields@), old_fields@),
        added.len() == 4,
        forall|k: int| 0 <= k < 4 ==> (#[trigger] sources@[k])@ == added[k],
        forall|k: int| 0 <= k < 4 ==> all_in(#[trigger] added[k], ByteClass::Printable),
    ensures
        outcome(result) == placed(
            joined_all(slots_at(fields_of(headers.fields@), old_fields@), added),
        ),
{
    let ghost fields = fields_of(headers.fields@);
    let ghost values = joined_all(slots_at(fields, old_fields@), added);
    // Prove every final bound before allocating any final output buffer.
    let mut index: usize = 0;
    while index < 4
        invariant
            index <= 4,
            fields == fields_of(headers.fields@),
            positions_valid(fields, old_fields@),
            sources@.len() == 4,
            forall|k: int| 0 <= k < 4 ==> (#[trigger] sources@[k])@ == added[k],
            values == joined_all(slots_at(fields, old_fields@), added),
            first_over(values, 0) == first_over(values, index as int),
        decreases 4 - index,
    {
        assert(old_fields@[index as int] != ABSENT ==> old_fields@[index as int] < fields.len());
        let prior: Option<&[u8]> = value_at(old_fields[index], headers);
        assert(values[index as int] == joined(bytes_of(prior), sources@[index as int]@));
        check_limit(joined_size(prior, sources[index].len()))?;
        proof {
            lemma_over_step(values, index as int);
        }
        index += 1;
    }
    proof {
        assert(first_over(values, 4) is None);
        assert(all_in(added[0], ByteClass::Printable));
        assert(all_in(added[1], ByteClass::Printable));
        assert(all_in(added[2], ByteClass::Printable));
        assert(all_in(added[3], ByteClass::Printable));
    }
    let forwarded_text: String = write_output(old_fields[0], sources[0], headers);
    let for_text: String = write_output(old_fields[1], sources[1], headers);
    let proto_text: String = write_output(old_fields[2], sources[2], headers);
    let host_text: String = write_output(old_fields[3], sources[3], headers);
    Ok(
        ForwardingResult {
            forwarded: forwarded_text,
            x_forwarded_for: for_text,
            x_forwarded_proto: proto_text,
            x_forwarded_host: host_text,
        },
    )
}

fn validate_policy(policy: &ForwardingPolicy) -> (result: Result<ClientNode>)
    ensures
        match result {
            Ok(node) => client_node(policy@.client_ip, ClientRule::AsGiven) == Some(node@)
                && is_usable(policy@),
            Err(error) => error@ == Fault::InvalidForwardingInput && !(client_node(
                policy@.client_ip,
                ClientRule::AsGiven,
            ) is Some && is_usable(policy@)),
        },
{
    let family: Option<ClientNode> = read_client(
        policy.client_ip.as_str().as_bytes(),
        ClientRule::AsGiven,
    );
    match family {
        Some(node) => if is_proto_text(policy.proto.as_str()) && is_host_text(policy.host.as_str()) {
            Ok(node)
        } else {
            Err(PolyguardError::InvalidForwardingInput)
        },
        None => Err(PolyguardError::InvalidForwardingInput),
    }
}

/// Where the incoming values of the four fields are.
fn validate_trusted_headers(headers: &HeaderBlock) -> (result: Result<[usize; 4]>)
    ensures
        ({
            let fields = fields_of(headers.fields@);
            match result {
                Ok(positions) => {
                    &&& positions_valid(fields, positions@)
                    &&& gathered(fields, 0, no_slots(), boundary_rules()) == Ok::<
                        Seq<Option<Seq<u8>>>,
                        Fault,
                    >(slots_at(fields, positions@))
                },
                Err(error) => gathered(fields, 0, no_slots(), boundary_rules()) == Err::<
                    Seq<Option<Seq<u8>>>,
                    Fault,
                >(error@),
            }
        }),
{
    let ghost fields = fields_of(headers.fields@);
    let ghost rules = boundary_rules();
    let mut positions: [usize; 4] = [ABSENT, ABSENT, ABSENT, ABSENT];
    assert(slots_at(fields, positions@) =~= no_slots());
    let mut position: usize = 0;
    while position < headers.fields.len()
        invariant
            position <= headers.fields@.len(),
            fields == fields_of(headers.fields@),
            rules == boundary_rules(),
            positions_valid(fields, positions@),
            gathered(fields, 0, no_slots(), rules) == gathered(
                fields,
                position as int,
                slots_at(fields, positions@),
                rules,
            ),
        decreases headers.fields@.len() - position,
    {
        let field: &HeaderField = &headers.fields[position];
        assert(fields[position as int] == field@);
        let slot: usize = slot_position(field.name.as_str());
        if slot < 4 {
            validate_old_value(field.value.as_slice())?;
            assert(slots_at(fields, positions@)[slot as int] is Some <==> positions@[slot as int]
                != ABSENT);
            if positions[slot] != ABSENT {
                return Err(PolyguardError::InvalidForwardingInput);
            }
            let ghost before = slots_at(fields, positions@);
            positions[slot] = position;
            assert(slots_at(fields, positions@) =~= before.update(slot as int, Some(field.value@)));
        }
        position += 1;
    }
    Ok(positions)
}

fn slot_position(name: &str) -> (slot: usize)
    ensures
        slot <= 4,
        slot < 4 ==> slot_of(utf8(name@), false) == Some(slot as int),
        slot == 4 ==> slot_of(utf8(name@), false) is None,
{
    if same_text(name, "forwarded") {
        0
    } else if same_text(name, "x-forwarded-for") {
        1
    } else if same_text(name, "x-forwarded-proto") {
        2
    } else if same_text(name, "x-forwarded-host") {
        3
    } else {
        4
    }
}

fn validate_old_value(value: &[u8]) -> (result: Result<()>)
    ensures
        match result {
            Ok(_) => value_fault(value@) is None,
            Err(error) => value_fault(value@) == Some(error@),
        },
{
    check_limit(value.len())?;
    match is_list_by_scan(value) {
        true => Ok(()),
        false => Err(PolyguardError::InvalidForwardingInput),
    }
}

/// The hop, which has to keep the limit by itself.
fn make_hop(node: &ClientNode, proto: &[u8], host: &[u8]) -> (result: Result<Vec<u8>>)
    ensures
        match result {
            Ok(text) => text@ == hop(node@, proto@, host@) && text@.len() <= FORWARDING_VALUE_LIMIT,
            Err(error) => hop(node@, proto@, host@).len() > FORWARDING_VALUE_LIMIT && error@
                == over_limit(hop(node@, proto@, host@).len() as int),
        },
{
    check_limit(hop_size(node, proto, host))?;
    Ok(render_hop(node, proto, host))
}

/// The value of the field at a position.
fn value_at<'a>(position: usize, headers: &'a HeaderBlock) -> (value: Option<&'a [u8]>)
    requires
        position != ABSENT ==> position < headers.fields@.len(),
    ensures
        bytes_of(value) == (if position == ABSENT {
            None
        } else {
            Some(fields_of(headers.fields@)[position as int].value)
        }),
{
    if position == ABSENT {
        None
    } else {
        Some(headers.fields[position].value.as_slice())
    }
}

fn write_output(old_position: usize, addition: &[u8], headers: &HeaderBlock) -> (text: String)
    requires
        old_position != ABSENT ==> old_position < headers.fields@.len() && value_fault(
            fields_of(headers.fields@)[old_position as int].value,
        ) is None,
        all_in(addition@, ByteClass::Printable),
    ensures
        utf8(text@) == joined(
            if old_position == ABSENT {
                None
            } else {
                Some(fields_of(headers.fields@)[old_position as int].value)
            },
            addition@,
        ),
{
    join_text(value_at(old_position, headers), addition)
}

} // verus!
