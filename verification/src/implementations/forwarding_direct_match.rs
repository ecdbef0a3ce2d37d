//! Forwarding policy by direct matches.

use vstd::prelude::*;
use crate::bytes::{ByteClass, all_in};
use crate::forwarding::{
    ClientNode, ClientRule, FORWARDING_VALUE_LIMIT, ForwardingRules, additions, applied, bytes_of,
    check_limit, client_node, field_fault, first_over, gathered, hop, hop_size, is_host_text,
    is_list_by_scan, is_proto_text, is_usable, join_text, joined, joined_all, joined_size,
    lemma_additions_printable, lemma_over_step, no_slots, over_limit, placed, read_client,
    render_hop, slots_valid, value_fault,
};
use crate::text::same_text;
use crate::types::{
    Fault, ForwardingPolicy, ForwardingResult, HeaderBlock, HeaderField, PolyguardError, Result,
    fields_of, outcome,
};

verus! {

/// The incoming values of the four fields.
struct PriorValues<'a> {
    forwarded: Option<&'a [u8]>,
    x_for: Option<&'a [u8]>,
    x_proto: Option<&'a [u8]>,
    x_host: Option<&'a [u8]>,
}

impl<'a> PriorValues<'a> {
    spec fn slots(self) -> Seq<Option<Seq<u8>>> {
        seq![
            bytes_of(self.forwarded),
            bytes_of(self.x_for),
            bytes_of(self.x_proto),
            bytes_of(self.x_host),
        ]
    }

    fn absent() -> (prior: Self)
        ensures
            prior.slots() == no_slots(),
    {
        let prior = PriorValues { forwarded: None, x_for: None, x_proto: None, x_host: None };
        assert(prior.slots() =~= no_slots());
        prior
    }
}

spec fn match_rules() -> ForwardingRules {
    ForwardingRules {
        client: ClientRule::Canonical,
        any_case: false,
        repeat_first: true,
        hop_alone: true,
    }
}

/// Apply forwarding metadata with direct validation and exhaustive boundary decisions.
#[verifier::spinoff_prover]
#[verifier::rlimit(80)]
pub fn apply_forwarding_policy(policy: &ForwardingPolicy, headers: &HeaderBlock) -> (result: Result<
    ForwardingResult,
>)
    ensures
        outcome(result) == applied(
            policy@,
            fields_of(headers.fields@),
            (ForwardingRules {
                client: ClientRule::Canonical,
                any_case: false,
                repeat_first: true,
                hop_alone: true,
            }),
        ),
{
    let ghost rules = match_rules();
    let node: ClientNode = validate_listener_values(policy)?;
    proof {
        lemma_additions_printable(policy@, rules.client);
    }
    let prior: PriorValues = match policy.trust_incoming {
        false => PriorValues::absent(),
        true => inspect_prior_values(headers)?,
    };
    let ghost added = additions(node@, policy@);
    let ghost values = joined_all(prior.slots(), added);
    proof {
        if !policy.trust_incoming {
            assert(values =~= added);
        }
    }
    let proto: &[u8] = policy.proto.as_str().as_bytes();
    let host: &[u8] = policy.host.as_str().as_bytes();
    let forwarded: Vec<u8> = canonical_hop(&node, proto, host)?;
    proof {
        assert(applied(policy@, fields_of(headers.fields@), rules) == placed(values));
        assert(added =~= seq![forwarded@, node.text@, proto@, host@]);
        assert(all_in(added[0], ByteClass::Printable));
        assert(all_in(added[1], ByteClass::Printable));
        assert(all_in(added[2], ByteClass::Printable));
        assert(all_in(added[3], ByteClass::Printable));
    }
    combine(&prior, forwarded.as_slice(), node.text.as_slice(), proto, host)
}

/// Each incoming value with what is added to it, once all are seen to keep the limit.
#[verifier::spinoff_prover]
#[verifier::rlimit(80)]
fn combine(
    prior: &PriorValues<'_>,
    forwarded: &[u8],
    client: &[u8],
    proto: &[u8],
    host: &[u8],
) -> (result: Result<ForwardingResult>)
    requires
        slots_valid(prior.slots()),
        all_in(forwarded@, ByteClass::Printable),
        all_in(client@, ByteClass::Printable),
        all_in(proto@, ByteClass::Printable),
        all_in(host@, ByteClass::Printable),
    ensures
        outcome(result) == placed(
            joined_all(prior.slots(), seq![forwarded@, client@, proto@, host@]),
        ),
{
    let ghost values = joined_all(prior.slots(), seq![forwarded@, client@, proto@, host@]);
    proof {
        assert(prior.slots()[0] == bytes_of(prior.forwarded));
        assert(prior.slots()[1] == bytes_of(prior.x_for));
        assert(prior.slots()[2] == bytes_of(prior.x_proto));
        assert(prior.slots()[3] == bytes_of(prior.x_host));
        assert(values[0] == joined(bytes_of(prior.forwarded), forwarded@));
        assert(values[1] == joined(bytes_of(prior.x_for), client@));
        assert(values[2] == joined(bytes_of(prior.x_proto), proto@));
        assert(values[3] == joined(bytes_of(prior.x_host), host@));
    }
    check_limit(joined_size(prior.forwarded, forwarded.len()))?;
    proof {
        lemma_over_step(values, 0);
    }
    check_limit(joined_size(prior.x_for, client.len()))?;
    proof {
        lemma_over_step(values, 1);
    }
    check_limit(joined_size(prior.x_proto, proto.len()))?;
    proof {
        lemma_over_step(values, 2);
    }
    check_limit(joined_size(prior.x_host, host.len()))?;
    proof {
        lemma_over_step(values, 3);
        assert(first_over(values, 4) is None);
    }
    Ok(
        ForwardingResult {
            forwarded: join_text(prior.forwarded, forwarded),
            x_forwarded_for: join_text(prior.x_for, client),
            x_forwarded_proto: join_text(prior.x_proto, proto),
            x_forwarded_host: join_text(prior.x_host, host),
        },
    )
}

/// The client, once the client, the protocol and the host have been checked.
fn validate_listener_values(policy: &ForwardingPolicy) -> (result: Result<ClientNode>)
    ensures
        match result {
            Ok(node) => client_node(policy@.client_ip, ClientRule::Canonical) == Some(node@)
                && is_usable(policy@),
            Err(error) => error@ == Fault::InvalidForwardingInput && !(client_node(
                policy@.client_ip,
                ClientRule::Canonical,
            ) is Some && is_usable(policy@)),
        },
{
    let family: Option<ClientNode> = read_client(
        policy.client_ip.as_str().as_bytes(),
        ClientRule::Canonical,
    );
    match family {
        Some(node) => if is_proto_text(policy.proto.as_str()) && is_host_text(policy.host.as_str()) {
            Ok(node)
        } else {
            Err(PolyguardError::InvalidForwardingInput)
        },
        None => Err(PolyguardError::InvalidForwardingInput),
    }
}

fn inspect_prior_values<'a>(headers: &'a HeaderBlock) -> (result: Result<PriorValues<'a>>)
    ensures
        match result {
            Ok(prior) => {
                &&& slots_valid(prior.slots())
                &&& gathered(fields_of(headers.fields@), 0, no_slots(), match_rules()) == Ok::<
                    Seq<Option<Seq<u8>>>,
                    Fault,
                >(prior.slots())
            },
            Err(error) => gathered(fields_of(headers.fields@), 0, no_slots(), match_rules())
                == Err::<Seq<Option<Seq<u8>>>, Fault>(error@),
        },
{
    let ghost fields = fields_of(headers.fields@);
    let ghost rules = match_rules();
    let mut prior: PriorValues<'a> = PriorValues::absent();
    let mut index: usize = 0;
    while index < headers.fields.len()
        invariant
            index <= headers.fields@.len(),
            fields == fields_of(headers.fields@),
            rules == match_rules(),
            slots_valid(prior.slots()),
            gathered(fields, 0, no_slots(), rules) == gathered(
                fields,
                index as int,
                prior.slots(),
                rules,
            ),
        decreases headers.fields@.len() - index,
    {
        let field: &'a HeaderField = &headers.fields[index];
        let value: &'a [u8] = field.value.as_slice();
        let name: &'a str = field.name.as_str();
        let ghost before = prior.slots();
        assert(fields[index as int] == field@);
        if same_text(name, "forwarded") {
            assert(before[0] == bytes_of(prior.forwarded));
            accept_prior_value(prior.forwarded, value)?;
            prior.forwarded = Some(value);
            assert(prior.slots() =~= before.update(0, Some(value@)));
        } else if same_text(name, "x-forwarded-for") {
            assert(before[1] == bytes_of(prior.x_for));
            accept_prior_value(prior.x_for, value)?;
            prior.x_for = Some(value);
            assert(prior.slots() =~= before.update(1, Some(value@)));
        } else if same_text(name, "x-forwarded-proto") {
            assert(before[2] == bytes_of(prior.x_proto));
            accept_prior_value(prior.x_proto, value)?;
            prior.x_proto = Some(value);
            assert(prior.slots() =~= before.update(2, Some(value@)));
        } else if same_text(name, "x-forwarded-host") {
            assert(before[3] == bytes_of(prior.x_host));
            accept_prior_value(prior.x_host, value)?;
            prior.x_host = Some(value);
            assert(prior.slots() =~= before.update(3, Some(value@)));
        }
        index += 1;
    }
    Ok(prior)
}

/// A value is accepted for a field that has not come in before.
fn accept_prior_value(present: Option<&[u8]>, value: &[u8]) -> (result: Result<()>)
    ensures
        match result {
            Ok(_) => field_fault(value@, bytes_of(present) is Some, true) is None,
            Err(error) => field_fault(value@, bytes_of(present) is Some, true) == Some(error@),
        },
{
    match present {
        None => validate_prior_value(value),
        Some(_) => Err(PolyguardError::InvalidForwardingInput),
    }
}

fn validate_prior_value(value: &[u8]) -> (result: Result<()>)
    ensures
        match result {
            Ok(_) => value_fault(value@) is None,
            Err(error) => value_fault(value@) == Some(error@),
        },
{
    check_limit(value.len())?;
    match is_list_by_scan(value) {
        true => Ok(()),
        false => Err(PolyguardError::InvalidForwardingInput),
    }
}

/// The hop, which has to keep the limit by itself.
fn canonical_hop(node: &ClientNode, proto: &[u8], host: &[u8]) -> (result: Result<Vec<u8>>)
    ensures
        match result {
            Ok(text) => text@ == hop(node@, proto@, host@) && text@.len() <= FORWARDING_VALUE_LIMIT,
            Err(error) => hop(node@, proto@, host@).len() > FORWARDING_VALUE_LIMIT && error@
                == over_limit(hop(node@, proto@, host@).len() as int),
        },
{
    check_limit(hop_size(node, proto, host))?;
    Ok(render_hop(node, proto, host))
}

} // verus!
