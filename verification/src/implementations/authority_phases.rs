//! Authority reconciliation in phases.

use vstd::prelude::*;
use crate::authority::{
    effective, find_host, reached_port, reconciled_in_phases, same_endpoint, shaped,
};
use crate::bytes::{ByteClass, find_in};
use crate::host::{
    bracketed_endpoint, dns_endpoint, endpoint, has_foreign_byte, is_dns, is_dns_name,
    parse_port_number, port_number, strip_final_dot,
};
use crate::ip::is_ipv6_text;
use crate::text::{is_ascii, lowered_text, same_text, utf8};
use crate::types::{
    AuthorityModel, EffectiveAuthority, HeaderBlock, NormalizedTarget, PolyguardError, Result,
    TargetForm, outcome,
};

verus! {

struct Authority {
    host: String,
    port: Option<u16>,
}

impl Authority {
    spec fn model(self) -> AuthorityModel {
        AuthorityModel { host: utf8(self.host@), port: self.port }
    }
}

#[derive(Clone, Copy)]
enum DefaultPort {
    Unknown,
    Http,
    Https,
}

impl DefaultPort {
    spec fn spec_number(self) -> Option<u16> {
        match self {
            DefaultPort::Unknown => None,
            DefaultPort::Http => Some(80),
            DefaultPort::Https => Some(443),
        }
    }

    fn number(self) -> (number: Option<u16>)
        ensures
            number == self.spec_number(),
    {
        match self {
            DefaultPort::Unknown => None,
            DefaultPort::Http => Some(80),
            DefaultPort::Https => Some(443),
        }
    }
}

/// Reconcile Host metadata and request-target authority in distinct validation,
/// agreement, and selection phases.
pub fn reconcile_authority(target: &NormalizedTarget, headers: &HeaderBlock) -> (result: Result<
    EffectiveAuthority,
>)
    ensures
        outcome(result) == reconciled_in_phases(target@, headers@.fields),
{
    let host_value = find_host(headers)?;
    enforce_host_cardinality(&target.form, host_value)?;
    let default_port = target_default(target)?;
    let header_authority: Option<Authority> = match host_value {
        Some(value) => Some(parse_authority(value)?),
        None => None,
    };
    let target_authority = target_authority(target)?;
    match (target_authority, header_authority) {
        (Some(from_target), Some(from_header)) => {
            if !authorities_agree(&from_target, &from_header, default_port) {
                return Err(PolyguardError::AuthorityMismatch);
            }
            Ok(render_effective(from_target, default_port))
        },
        (Some(from_target), None) => Ok(render_effective(from_target, default_port)),
        (None, Some(from_header)) => Ok(render_effective(from_header, default_port)),
        (None, None) => Err(PolyguardError::MissingHost),
    }
}

fn enforce_host_cardinality(form: &TargetForm, host: Option<&[u8]>) -> (enforced: Result<()>)
    ensures
        match enforced {
            Ok(_) => !((form is Origin || form is Asterisk) && host is None),
            Err(e) => (form is Origin || form is Asterisk) && host is None && e@ is MissingHost,
        },
{
    if matches!(form, TargetForm::Origin | TargetForm::Asterisk) && host.is_none() {
        Err(PolyguardError::MissingHost)
    } else {
        Ok(())
    }
}

fn target_default(target: &NormalizedTarget) -> (default: Result<DefaultPort>)
    ensures
        match default {
            Ok(d) => {
                &&& shaped(target@) is Some ==> shaped(target@) == Some(d.spec_number())
                &&& shaped(target@) is None ==> match target@.form {
                    TargetForm::Origin | TargetForm::Asterisk => target@.authority is Some,
                    _ => target@.authority is None,
                }
            },
            Err(e) => shaped(target@) is None && e@ is InvalidAuthority,
        },
{
    match (&target.form, &target.scheme) {
        (TargetForm::Absolute, Some(scheme)) => {
            if same_text(scheme.as_str(), "http") {
                Ok(DefaultPort::Http)
            } else if same_text(scheme.as_str(), "https") {
                Ok(DefaultPort::Https)
            } else {
                Err(PolyguardError::InvalidAuthority)
            }
        },
        (TargetForm::Authority | TargetForm::Origin | TargetForm::Asterisk, None) => Ok(
            DefaultPort::Unknown,
        ),
        _ => Err(PolyguardError::InvalidAuthority),
    }
}

fn target_authority(target: &NormalizedTarget) -> (authority: Result<Option<Authority>>)
    ensures
        match authority {
            Ok(Some(a)) => (target@.form is Absolute || target@.form is Authority)
                && target@.authority is Some && endpoint(target@.authority.unwrap()) == Some(
                a.model(),
            ),
            Ok(None) => (target@.form is Origin || target@.form is Asterisk)
                && target@.authority is None,
            Err(e) => e@ is InvalidAuthority && match target@.form {
                TargetForm::Origin | TargetForm::Asterisk => target@.authority is Some,
                _ => target@.authority is None || endpoint(target@.authority.unwrap()) is None,
            },
        },
{
    match (&target.form, &target.authority) {
        (TargetForm::Absolute | TargetForm::Authority, Some(value)) => {
            let authority = parse_authority(value.as_str().as_bytes())?;
            Ok(Some(authority))
        },
        (TargetForm::Origin | TargetForm::Asterisk, None) => Ok(None),
        _ => Err(PolyguardError::InvalidAuthority),
    }
}

fn authorities_agree(left: &Authority, right: &Authority, default: DefaultPort) -> (agree: bool)
    ensures
        agree == same_endpoint(left.model(), right.model(), default.spec_number()),
{
    same_text(left.host.as_str(), right.host.as_str()) && comparison_port(left.port, default)
        == comparison_port(right.port, default)
}

fn comparison_port(explicit: Option<u16>, default: DefaultPort) -> (port: Option<u16>)
    ensures
        port == reached_port(explicit, default.spec_number()),
{
    match explicit {
        Some(port) => Some(port),
        None => default.number(),
    }
}

fn render_effective(authority: Authority, default: DefaultPort) -> (rendered: EffectiveAuthority)
    ensures
        rendered@ == effective(authority.model(), default.spec_number()),
{
    let port: Option<u16> = match authority.port {
        Some(port) => if default.number() == Some(port) {
            None
        } else {
            Some(port)
        },
        None => None,
    };
    EffectiveAuthority { host: authority.host, port }
}

fn parse_authority(input: &[u8]) -> (authority: Result<Authority>)
    ensures
        match authority {
            Ok(a) => endpoint(input@) == Some(a.model()),
            Err(e) => endpoint(input@) is None && e@ is InvalidAuthority,
        },
{
    if input.len() == 0 || has_foreign_byte(input) {
        return Err(PolyguardError::InvalidAuthority);
    }
    if input[0] == '[' as u8 {
        parse_bracketed_ipv6(input)
    } else {
        parse_dns_authority(input)
    }
}

fn parse_bracketed_ipv6(input: &[u8]) -> (authority: Result<Authority>)
    requires
        input@.len() > 0,
        input@[0] == '[' as u8,
        is_ascii(input@),
    ensures
        match authority {
            Ok(a) => bracketed_endpoint(input@) == Some(a.model()),
            Err(e) => bracketed_endpoint(input@) is None && e@ is InvalidAuthority,
        },
{
    let closing: usize = find_in(input, ByteClass::Only(']' as u8));
    if closing == input.len() {
        return Err(PolyguardError::InvalidAuthority);
    }
    let address: &[u8] = &input[1..closing];
    if address.len() == 0 || !is_ipv6_text(address) {
        return Err(PolyguardError::InvalidAuthority);
    }
    let remainder: &[u8] = &input[closing + 1..input.len()];
    assert(remainder@ =~= input@.skip(closing + 1));
    let port: Option<u16> = if remainder.len() == 0 {
        None
    } else {
        if remainder[0] != ':' as u8 {
            return Err(PolyguardError::InvalidAuthority);
        }
        assert(remainder@.skip(1) =~= remainder@.subrange(1, remainder@.len() as int));
        Some(parse_port(&remainder[1..remainder.len()])?)
    };
    let spelled: &[u8] = &input[0..closing + 1];
    assert(spelled@ =~= input@.take(closing + 1));
    Ok(Authority { host: lowered_text(spelled), port })
}

fn parse_dns_authority(input: &[u8]) -> (authority: Result<Authority>)
    requires
        is_ascii(input@),
    ensures
        match authority {
            Ok(a) => dns_endpoint(input@) == Some(a.model()),
            Err(e) => dns_endpoint(input@) is None && e@ is InvalidAuthority,
        },
{
    let colon: usize = find_in(input, ByteClass::Only(':' as u8));
    let dns: &[u8] = &input[0..colon];
    assert(dns@ =~= input@.take(colon as int));
    let port: Option<u16> = if colon < input.len() {
        let digits: &[u8] = &input[colon + 1..input.len()];
        assert(digits@ =~= input@.skip(colon + 1));
        Some(parse_port(digits)?)
    } else {
        None
    };
    let canonical_dns: &[u8] = strip_final_dot(dns);
    validate_dns(canonical_dns)?;
    assert(is_ascii(canonical_dns@));
    Ok(Authority { host: lowered_text(canonical_dns), port })
}

fn validate_dns(dns: &[u8]) -> (valid: Result<()>)
    ensures
        match valid {
            Ok(_) => is_dns_name(dns@),
            Err(e) => !is_dns_name(dns@) && e@ is InvalidAuthority,
        },
{
    if is_dns(dns) {
        Ok(())
    } else {
        Err(PolyguardError::InvalidAuthority)
    }
}

fn parse_port(digits: &[u8]) -> (port: Result<u16>)
    ensures
        match port {
            Ok(p) => port_number(digits@) == Some(p),
            Err(e) => port_number(digits@) is None && e@ is InvalidAuthority,
        },
{
    match parse_port_number(digits) {
        Some(port) => Ok(port),
        None => Err(PolyguardError::InvalidAuthority),
    }
}

} // verus!
