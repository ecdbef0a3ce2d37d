//! Authority reconciliation by a pipeline over two sources of byte segments.

use vstd::prelude::*;
use crate::authority::{
    combined_host_error, combined_host_fault, effective, host_value, only_host, optional_endpoint,
    reached_port, reconciled, same_endpoint, shaped, slice_opt,
};
use crate::bytes::{
    ByteClass, all_bytes_in, any_byte_in, find_in, lowered, same_ignoring_case, split, split_on,
};
use crate::host::{
    MAX_DNS_LABEL_BYTES, MAX_DNS_NAME_BYTES, bracketed_endpoint, dns_endpoint, endpoint,
    has_foreign_byte, is_dns_label, is_dns_name, lemma_endpoint_bytes, parse_port_number,
    port_number, strip_final_dot,
};
use crate::ip::is_ipv6_text;
use crate::text::{is_ascii, lowered_text, same_text};
use crate::types::{
    AuthorityModel, EffectiveAuthority, Fault, HeaderBlock, HeaderField, NormalizedTarget,
    PolyguardError, Result, TargetForm, fields_of, outcome,
};

verus! {

/// The two spellings of an authority, and the port that is left out of it by default.
struct Boundary<'a> {
    target_source: Option<&'a [u8]>,
    header_source: Option<&'a [u8]>,
    default_port: Option<u16>,
}

#[derive(Clone, Copy)]
struct Endpoint<'a> {
    canonical_host: &'a [u8],
    explicit_port: Option<u16>,
}

impl<'a> Endpoint<'a> {
    spec fn model(self) -> AuthorityModel {
        AuthorityModel { host: lowered(self.canonical_host@), port: self.explicit_port }
    }
}

/// The endpoints that the two spellings name.
struct Endpoints<'a> {
    target: Option<Endpoint<'a>>,
    header: Option<Endpoint<'a>>,
}

impl<'a> Endpoints<'a> {
    spec fn decodes(self, from_target: Option<Seq<u8>>, from_header: Option<Seq<u8>>) -> bool {
        &&& optional_endpoint(from_target) == Some(endpoint_opt(self.target))
        &&& optional_endpoint(from_header) == Some(endpoint_opt(self.header))
        &&& self.target is Some ==> is_ascii(self.target.unwrap().canonical_host@)
        &&& self.header is Some ==> is_ascii(self.header.unwrap().canonical_host@)
    }
}

spec fn endpoint_opt(endpoint: Option<Endpoint<'_>>) -> Option<AuthorityModel> {
    match endpoint {
        Some(e) => Some(e.model()),
        None => None,
    }
}

/// Reconcile authority through a fixed two-source pipeline: validate the public
/// boundary, decode both spellings into compact slices and integers, establish
/// agreement, and only then allocate the result.
pub fn reconcile_authority(target: &NormalizedTarget, headers: &HeaderBlock) -> (result: Result<
    EffectiveAuthority,
>)
    ensures
        outcome(result) == reconciled(target@, headers@.fields),
{
    let boundary = validate_boundary(target, headers)?;
    let endpoints = decode_sources(&boundary)?;
    require_agreement(&endpoints, boundary.default_port)?;
    materialize_preferred(endpoints, boundary.default_port)
}

fn validate_boundary<'a>(target: &'a NormalizedTarget, headers: &'a HeaderBlock) -> (validated:
    Result<Boundary<'a>>)
    ensures
        match validated {
            Ok(b) => {
                &&& host_value(headers@.fields) == Ok::<Option<Seq<u8>>, Fault>(
                    slice_opt(b.header_source),
                )
                &&& shaped(target@) == Some(b.default_port)
                &&& slice_opt(b.target_source) == target@.authority
                &&& b.target_source is Some || b.header_source is Some
            },
            Err(e) => reconciled(target@, headers@.fields) == Err::<AuthorityModel, Fault>(e@),
        },
{
    let header: Option<&'a [u8]> = validate_host_cardinality(headers)?;
    let (target_source, default_port, host_required): (Option<&'a [u8]>, Option<u16>, bool) =
        match (&target.form, &target.scheme, &target.authority) {
        (TargetForm::Origin | TargetForm::Asterisk, None, None) => (None, None, true),
        (TargetForm::Absolute, Some(scheme), Some(value)) => {
            if same_text(scheme.as_str(), "http") {
                (Some(value.as_str().as_bytes()), Some(80), false)
            } else if same_text(scheme.as_str(), "https") {
                (Some(value.as_str().as_bytes()), Some(443), false)
            } else {
                return Err(PolyguardError::InvalidAuthority);
            }
        },
        (TargetForm::Authority, None, Some(value)) => (
            Some(value.as_str().as_bytes()),
            None,
            false,
        ),
        _ => return Err(PolyguardError::InvalidAuthority),
    };
    if host_required && header.is_none() {
        return Err(PolyguardError::MissingHost);
    }
    Ok(Boundary { target_source, header_source: header, default_port })
}

fn validate_host_cardinality<'a>(headers: &'a HeaderBlock) -> (host: Result<Option<&'a [u8]>>)
    ensures
        match host {
            Ok(value) => host_value(headers@.fields) == Ok::<Option<Seq<u8>>, Fault>(
                slice_opt(value),
            ),
            Err(e) => host_value(headers@.fields) == Err::<Option<Seq<u8>>, Fault>(e@),
        },
{
    let mut host: Option<&'a [u8]> = None;
    let mut index: usize = 0;
    let ghost models = headers@.fields;
    while index < headers.fields.len()
        invariant
            index <= headers.fields@.len(),
            models == fields_of(headers.fields@),
            models == headers@.fields,
            only_host(models, 0, None) == only_host(models, index as int, slice_opt(host)),
        decreases headers.fields@.len() - index,
    {
        let field: &'a HeaderField = &headers.fields[index];
        assert(models[index as int] == field@);
        if same_text(field.name.as_str(), "host") {
            if host.is_some() {
                return Err(PolyguardError::MultipleHost);
            }
            host = Some(field.value.as_slice());
        }
        index += 1;
    }
    if let Some(value) = host {
        if any_byte_in(value, ByteClass::Only(',' as u8)) {
            return Err(classify_list_shaped_host(value));
        }
    }
    Ok(host)
}

fn classify_list_shaped_host(value: &[u8]) -> (error: PolyguardError)
    ensures
        error@ == combined_host_fault(value@),
{
    combined_host_error(value)
}

fn decode_sources<'a>(boundary: &Boundary<'a>) -> (decoded: Result<Endpoints<'a>>)
    ensures
        match decoded {
            Ok(endpoints) => endpoints.decodes(
                slice_opt(boundary.target_source),
                slice_opt(boundary.header_source),
            ),
            Err(e) => e@ is InvalidAuthority && (optional_endpoint(
                slice_opt(boundary.target_source),
            ) is None || optional_endpoint(slice_opt(boundary.header_source)) is None),
        },
{
    let target: Option<Endpoint<'a>> = match boundary.target_source {
        Some(source) => Some(decode_authority(source)?),
        None => None,
    };
    let header: Option<Endpoint<'a>> = match boundary.header_source {
        Some(source) => Some(decode_authority(source)?),
        None => None,
    };
    Ok(Endpoints { target, header })
}

fn decode_authority<'a>(input: &'a [u8]) -> (decoded: Result<Endpoint<'a>>)
    ensures
        match decoded {
            Ok(e) => endpoint(input@) == Some(e.model()) && is_ascii(e.canonical_host@),
            Err(e) => endpoint(input@) is None && e@ is InvalidAuthority,
        },
{
    validate_authority_alphabet(input)?;
    if input[0] == '[' as u8 {
        decode_bracketed_ipv6(input)
    } else {
        decode_dns_authority(input)
    }
}

fn validate_authority_alphabet(input: &[u8]) -> (valid: Result<()>)
    ensures
        match valid {
            Ok(_) => input@.len() > 0 && is_ascii(input@),
            Err(e) => endpoint(input@) is None && e@ is InvalidAuthority,
        },
{
    proof {
        if endpoint(input@) is Some {
            lemma_endpoint_bytes(input@);
        }
    }
    let forbidden: bool = input.len() == 0 || has_foreign_byte(input) || any_byte_in(
        input,
        ByteClass::Only('\\' as u8),
    );
    if forbidden {
        Err(PolyguardError::InvalidAuthority)
    } else {
        Ok(())
    }
}

fn decode_bracketed_ipv6<'a>(input: &'a [u8]) -> (decoded: Result<Endpoint<'a>>)
    requires
        input@.len() > 0,
        input@[0] == '[' as u8,
        is_ascii(input@),
    ensures
        match decoded {
            Ok(e) => bracketed_endpoint(input@) == Some(e.model()) && is_ascii(e.canonical_host@),
            Err(e) => bracketed_endpoint(input@) is None && e@ is InvalidAuthority,
        },
{
    let close: usize = find_in(input, ByteClass::Only(']' as u8));
    if close == input.len() {
        return Err(PolyguardError::InvalidAuthority);
    }
    let host: &'a [u8] = &input[0..close + 1];
    assert(host@ =~= input@.take(close + 1));
    let literal: &[u8] = &input[1..close];
    if literal.len() == 0 || !is_ipv6_text(literal) {
        return Err(PolyguardError::InvalidAuthority);
    }
    let suffix: &[u8] = &input[close + 1..input.len()];
    assert(suffix@ =~= input@.skip(close + 1));
    let explicit_port: Option<u16> = decode_suffix_port(suffix)?;
    Ok(Endpoint { canonical_host: host, explicit_port })
}

fn decode_dns_authority<'a>(input: &'a [u8]) -> (decoded: Result<Endpoint<'a>>)
    requires
        is_ascii(input@),
    ensures
        match decoded {
            Ok(e) => dns_endpoint(input@) == Some(e.model()) && is_ascii(e.canonical_host@),
            Err(e) => dns_endpoint(input@) is None && e@ is InvalidAuthority,
        },
{
    let colon: usize = find_in(input, ByteClass::Only(':' as u8));
    let spelled_host: &'a [u8] = &input[0..colon];
    assert(spelled_host@ =~= input@.take(colon as int));
    let explicit_port: Option<u16> = if colon < input.len() {
        let digits: &[u8] = &input[colon + 1..input.len()];
        assert(digits@ =~= input@.skip(colon + 1));
        Some(decode_port(digits)?)
    } else {
        None
    };
    let canonical_host: &'a [u8] = strip_final_dot(spelled_host);
    validate_dns_name(canonical_host)?;
    assert(is_ascii(canonical_host@));
    Ok(Endpoint { canonical_host, explicit_port })
}

fn decode_suffix_port(suffix: &[u8]) -> (port: Result<Option<u16>>)
    ensures
        match port {
            Ok(None) => suffix@.len() == 0,
            Ok(Some(p)) => suffix@.len() > 0 && suffix@[0] == ':' as u8 && port_number(
                suffix@.skip(1),
            ) == Some(p),
            Err(e) => e@ is InvalidAuthority && suffix@.len() > 0 && !(suffix@[0] == ':' as u8
                && port_number(suffix@.skip(1)) is Some),
        },
{
    if suffix.len() == 0 {
        return Ok(None);
    }
    if suffix[0] != ':' as u8 {
        return Err(PolyguardError::InvalidAuthority);
    }
    let digits: &[u8] = &suffix[1..suffix.len()];
    assert(digits@ =~= suffix@.skip(1));
    let port: u16 = decode_port(digits)?;
    Ok(Some(port))
}

fn validate_dns_name(host: &[u8]) -> (valid: Result<()>)
    ensures
        match valid {
            Ok(_) => is_dns_name(host@),
            Err(e) => !is_dns_name(host@) && e@ is InvalidAuthority,
        },
{
    if host.len() == 0 || host.len() > MAX_DNS_NAME_BYTES {
        return Err(PolyguardError::InvalidAuthority);
    }
    let labels: Vec<&[u8]> = split_on(host, '.' as u8);
    let mut index: usize = 0;
    while index < labels.len()
        invariant
            index <= labels@.len(),
            labels@.len() == split(host@, '.' as u8).len(),
            1 <= host@.len() <= MAX_DNS_NAME_BYTES,
            forall|i: int|
                0 <= i < labels@.len() ==> (#[trigger] labels@[i])@ == split(host@, '.' as u8)[i],
            forall|i: int|
                0 <= i < index ==> is_dns_label(#[trigger] split(host@, '.' as u8)[i]),
        decreases labels@.len() - index,
    {
        let label: &[u8] = labels[index];
        assert(label@ == split(host@, '.' as u8)[index as int]);
        let valid_edges: bool = label.len() > 0 && label[0] != '-' as u8 && label[label.len() - 1]
            != '-' as u8;
        let valid_body: bool = all_bytes_in(label, ByteClass::Label);
        if label.len() > MAX_DNS_LABEL_BYTES || !valid_edges || !valid_body {
            return Err(PolyguardError::InvalidAuthority);
        }
        index += 1;
    }
    Ok(())
}

fn decode_port(digits: &[u8]) -> (port: Result<u16>)
    ensures
        match port {
            Ok(p) => port_number(digits@) == Some(p),
            Err(e) => port_number(digits@) is None && e@ is InvalidAuthority,
        },
{
    match parse_port_number(digits) {
        Some(port) => Ok(port),
        None => Err(PolyguardError::InvalidAuthority),
    }
}

fn port_or(port: Option<u16>, default: Option<u16>) -> (reached: Option<u16>)
    ensures
        reached == reached_port(port, default),
{
    match port {
        Some(port) => Some(port),
        None => default,
    }
}

fn require_agreement(endpoints: &Endpoints<'_>, default: Option<u16>) -> (agreed: Result<()>)
    ensures
        match agreed {
            Ok(_) => endpoints.target is Some && endpoints.header is Some ==> same_endpoint(
                endpoints.target.unwrap().model(),
                endpoints.header.unwrap().model(),
                default,
            ),
            Err(e) => e@ is AuthorityMismatch && endpoints.target is Some
                && endpoints.header is Some && !same_endpoint(
                endpoints.target.unwrap().model(),
                endpoints.header.unwrap().model(),
                default,
            ),
        },
{
    match (endpoints.target, endpoints.header) {
        (Some(target), Some(header)) => {
            let same_host: bool = same_ignoring_case(target.canonical_host, header.canonical_host);
            let same_port: bool = port_or(target.explicit_port, default) == port_or(
                header.explicit_port,
                default,
            );
            if same_host && same_port {
                Ok(())
            } else {
                Err(PolyguardError::AuthorityMismatch)
            }
        },
        _ => Ok(()),
    }
}

fn materialize_preferred(endpoints: Endpoints<'_>, default: Option<u16>) -> (result: Result<
    EffectiveAuthority,
>)
    requires
        endpoints.target is Some ==> is_ascii(endpoints.target.unwrap().canonical_host@),
        endpoints.header is Some ==> is_ascii(endpoints.header.unwrap().canonical_host@),
    ensures
        outcome(result) == match (endpoints.target, endpoints.header) {
            (Some(target), _) => Ok(effective(target.model(), default)),
            (None, Some(header)) => Ok(effective(header.model(), default)),
            (None, None) => Err(Fault::MissingHost),
        },
{
    let selected = match (endpoints.target, endpoints.header) {
        (Some(target), _) => target,
        (None, Some(header)) => header,
        (None, None) => return Err(PolyguardError::MissingHost),
    };
    let host: String = lowered_text(selected.canonical_host);
    let port: Option<u16> = match selected.explicit_port {
        Some(port) => if default == Some(port) {
            None
        } else {
            Some(port)
        },
        None => None,
    };
    Ok(EffectiveAuthority { host, port })
}

} // verus!
