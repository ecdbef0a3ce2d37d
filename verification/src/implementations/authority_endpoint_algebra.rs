//! Authority reconciliation by comparing endpoints.

use vstd::prelude::*;
use crate::authority::{
    effective, find_host, host_value, reached_port, reconciled, same_endpoint, settled, shaped,
};
use crate::bytes::{ByteClass, any_byte_in, find_in, lower_bytes, lowered};
use crate::host::{
    bracketed_endpoint, dns_endpoint, endpoint, has_foreign_byte, is_dns, lemma_endpoint_bytes,
    parse_port_number, port_number, strip_final_dot,
};
use crate::ip::is_ipv6_text;
use crate::text::{append, ascii_text, is_ascii, lowered_text, same_text, utf8};
use crate::types::{
    AuthorityModel, EffectiveAuthority, Fault, HeaderBlock, NormalizedTarget, PolyguardError,
    Result, TargetForm, TargetModel, outcome,
};

verus! {

#[derive(Clone, Copy)]
struct SchemeDefault(Option<u16>);

#[derive(Clone, Copy)]
enum RawHost<'a> {
    Dns(&'a [u8]),
    Ipv6(&'a [u8]),
}

#[derive(Clone, Copy)]
struct ValidatedAuthority<'a> {
    host: RawHost<'a>,
    port: Option<u16>,
}

impl<'a> ValidatedAuthority<'a> {
    /// The canonical endpoint that the spelling stands for.
    spec fn model(self) -> AuthorityModel {
        AuthorityModel {
            host: match self.host {
                RawHost::Dns(name) => lowered(name@),
                RawHost::Ipv6(address) => seq!['[' as u8] + lowered(address@) + seq![']' as u8],
            },
            port: self.port,
        }
    }

    spec fn is_ascii_text(self) -> bool {
        match self.host {
            RawHost::Dns(name) => is_ascii(name@),
            RawHost::Ipv6(address) => is_ascii(address@),
        }
    }
}

struct CanonicalHost(String);

struct CanonicalAuthority {
    host: CanonicalHost,
    explicit_port: Option<u16>,
}

impl CanonicalAuthority {
    spec fn model(self) -> AuthorityModel {
        AuthorityModel { host: utf8(self.host.0@), port: self.explicit_port }
    }
}

enum HostField<T> {
    Missing,
    Present(T),
}

struct CanonicalEvidence<'a> {
    form: &'a TargetForm,
    scheme: Option<&'a str>,
    target: Option<CanonicalAuthority>,
    header: HostField<CanonicalAuthority>,
}

/// Reconcile authorities by validating raw, type-directed values first and
/// then comparing the algebraic endpoint `(canonical host, effective port)`.
pub fn reconcile_authority(target: &NormalizedTarget, headers: &HeaderBlock) -> (result: Result<
    EffectiveAuthority,
>)
    ensures
        outcome(result) == reconciled(target@, headers@.fields),
{
    // Collect and validate every supplied spelling before applying any form,
    // source-preference, agreement, or default-port transformation.
    let header = observe_host(headers)?;
    let target_authority: Option<CanonicalAuthority> = match &target.authority {
        Some(text) => Some(canonicalize(validate_authority(text.as_str().as_bytes())?)),
        None => None,
    };
    let evidence = CanonicalEvidence {
        form: &target.form,
        scheme: match &target.scheme {
            Some(scheme) => Some(scheme.as_str()),
            None => None,
        },
        target: target_authority,
        header: match header {
            HostField::Missing => HostField::Missing,
            HostField::Present(value) => HostField::Present(canonicalize(value)),
        },
    };
    decision_table(evidence, Ghost(target@), Ghost(host_value(headers@.fields)->Ok_0))
}

fn observe_host<'a>(headers: &'a HeaderBlock) -> (observed: Result<HostField<ValidatedAuthority<'a>>>)
    ensures
        match observed {
            Ok(HostField::Present(v)) => {
                &&& host_value(headers@.fields) is Ok
                &&& host_value(headers@.fields)->Ok_0 is Some
                &&& endpoint(host_value(headers@.fields)->Ok_0.unwrap()) == Some(v.model())
                &&& v.is_ascii_text()
            },
            Ok(HostField::Missing) => host_value(headers@.fields) == Ok::<Option<Seq<u8>>, Fault>(
                None,
            ),
            Err(e) => match host_value(headers@.fields) {
                Ok(Some(value)) => endpoint(value) is None && e@ is InvalidAuthority,
                Ok(None) => false,
                Err(fault) => e@ == fault,
            },
        },
{
    match find_host(headers)? {
        None => Ok(HostField::Missing),
        Some(value) => {
            let authority = validate_authority(value)?;
            Ok(HostField::Present(authority))
        },
    }
}

/// The outcome for the evidence: the one place where form, scheme and the two sources meet.
fn decision_table(
    evidence: CanonicalEvidence<'_>,
    Ghost(target): Ghost<TargetModel>,
    Ghost(host): Ghost<Option<Seq<u8>>>,
) -> (result: Result<EffectiveAuthority>)
    requires
        *evidence.form == target.form,
        match evidence.scheme {
            Some(scheme) => target.scheme == Some(utf8(scheme@)),
            None => target.scheme is None,
        },
        match evidence.target {
            Some(a) => target.authority is Some && endpoint(target.authority.unwrap()) == Some(
                a.model(),
            ),
            None => target.authority is None,
        },
        match evidence.header {
            HostField::Present(a) => host is Some && endpoint(host.unwrap()) == Some(a.model()),
            HostField::Missing => host is None,
        },
    ensures
        outcome(result) == match shaped(target) {
            Some(default) => settled(target.authority, host, default),
            None => Err(Fault::InvalidAuthority),
        },
{
    match (evidence.form, evidence.scheme, evidence.target, evidence.header) {
        (TargetForm::Origin | TargetForm::Asterisk, None, None, HostField::Present(header)) => Ok(
            as_effective(header, SchemeDefault(None)),
        ),
        (TargetForm::Origin | TargetForm::Asterisk, None, None, HostField::Missing) => Err(
            PolyguardError::MissingHost,
        ),
        (TargetForm::Absolute, Some(scheme), Some(target_authority), header) => {
            if same_text(scheme, "http") {
                derive_effective(target_authority, header, SchemeDefault(Some(80)))
            } else if same_text(scheme, "https") {
                derive_effective(target_authority, header, SchemeDefault(Some(443)))
            } else {
                Err(PolyguardError::InvalidAuthority)
            }
        },
        (TargetForm::Authority, None, Some(target_authority), header) => derive_effective(
            target_authority,
            header,
            SchemeDefault(None),
        ),
        _ => Err(PolyguardError::InvalidAuthority),
    }
}

fn derive_effective(
    preferred: CanonicalAuthority,
    corroborating: HostField<CanonicalAuthority>,
    default: SchemeDefault,
) -> (result: Result<EffectiveAuthority>)
    ensures
        outcome(result) == match corroborating {
            HostField::Present(header) => if same_endpoint(
                preferred.model(),
                header.model(),
                default.0,
            ) {
                Ok(effective(preferred.model(), default.0))
            } else {
                Err(Fault::AuthorityMismatch)
            },
            HostField::Missing => Ok(effective(preferred.model(), default.0)),
        },
{
    if let HostField::Present(header) = corroborating {
        if !same_key(endpoint_key(&preferred, default), endpoint_key(&header, default)) {
            return Err(PolyguardError::AuthorityMismatch);
        }
    }
    Ok(as_effective(preferred, default))
}

fn validate_authority<'a>(input: &'a [u8]) -> (validated: Result<ValidatedAuthority<'a>>)
    ensures
        match validated {
            Ok(v) => endpoint(input@) == Some(v.model()) && v.is_ascii_text(),
            Err(e) => endpoint(input@) is None && e@ is InvalidAuthority,
        },
{
    if input.len() == 0 || has_foreign_byte(input) || has_backslash(input) {
        return Err(PolyguardError::InvalidAuthority);
    }
    if input[0] == '[' as u8 {
        validate_ipv6_authority(input)
    } else {
        validate_dns_authority(input)
    }
}

fn has_backslash(input: &[u8]) -> (found: bool)
    ensures
        found ==> endpoint(input@) is None,
{
    let found: bool = any_byte_in(input, ByteClass::Only('\\' as u8));
    proof {
        if endpoint(input@) is Some {
            lemma_endpoint_bytes(input@);
        }
    }
    found
}

fn validate_ipv6_authority<'a>(input: &'a [u8]) -> (validated: Result<ValidatedAuthority<'a>>)
    requires
        input@.len() > 0,
        input@[0] == '[' as u8,
        is_ascii(input@),
    ensures
        match validated {
            Ok(v) => bracketed_endpoint(input@) == Some(v.model()) && v.is_ascii_text(),
            Err(e) => bracketed_endpoint(input@) is None && e@ is InvalidAuthority,
        },
{
    let close: usize = find_in(input, ByteClass::Only(']' as u8));
    if close == input.len() {
        return Err(PolyguardError::InvalidAuthority);
    }
    let address: &'a [u8] = &input[1..close];
    if !is_ipv6_text(address) {
        return Err(PolyguardError::InvalidAuthority);
    }
    let suffix: &[u8] = &input[close + 1..input.len()];
    assert(suffix@ =~= input@.skip(close + 1));
    let port: Option<u16> = if suffix.len() == 0 {
        None
    } else {
        if suffix[0] != ':' as u8 {
            return Err(PolyguardError::InvalidAuthority);
        }
        assert(suffix@.skip(1) =~= suffix@.subrange(1, suffix@.len() as int));
        Some(parse_port(&suffix[1..suffix.len()])?)
    };
    assert(lowered(input@.take(close + 1)) =~= seq!['[' as u8] + lowered(address@) + seq![
        ']' as u8,
    ]);
    Ok(ValidatedAuthority { host: RawHost::Ipv6(address), port })
}

fn validate_dns_authority<'a>(input: &'a [u8]) -> (validated: Result<ValidatedAuthority<'a>>)
    requires
        is_ascii(input@),
    ensures
        match validated {
            Ok(v) => dns_endpoint(input@) == Some(v.model()) && v.is_ascii_text(),
            Err(e) => dns_endpoint(input@) is None && e@ is InvalidAuthority,
        },
{
    let colon: usize = find_in(input, ByteClass::Only(':' as u8));
    let spelled_host: &'a [u8] = &input[0..colon];
    assert(spelled_host@ =~= input@.take(colon as int));
    let port: Option<u16> = if colon == input.len() {
        None
    } else {
        let digits: &[u8] = &input[colon + 1..input.len()];
        assert(digits@ =~= input@.skip(colon + 1));
        Some(parse_port(digits)?)
    };
    let host: &'a [u8] = strip_final_dot(spelled_host);
    if !is_dns(host) {
        return Err(PolyguardError::InvalidAuthority);
    }
    assert(is_ascii(host@));
    Ok(ValidatedAuthority { host: RawHost::Dns(host), port })
}

fn parse_port(digits: &[u8]) -> (port: Result<u16>)
    ensures
        match port {
            Ok(p) => port_number(digits@) == Some(p),
            Err(e) => port_number(digits@) is None && e@ is InvalidAuthority,
        },
{
    match parse_port_number(digits) {
        Some(port) => Ok(port),
        None => Err(PolyguardError::InvalidAuthority),
    }
}

fn canonicalize(authority: ValidatedAuthority<'_>) -> (canonical: CanonicalAuthority)
    requires
        authority.is_ascii_text(),
    ensures
        canonical.model() == authority.model(),
{
    let host: String = match authority.host {
        RawHost::Dns(name) => lowered_text(name),
        RawHost::Ipv6(address) => {
            let mut rendered: Vec<u8> = Vec::new();
            rendered.push('[' as u8);
            append(&mut rendered, lower_bytes(address).as_slice());
            rendered.push(']' as u8);
            assert(rendered@ =~= authority.model().host);
            ascii_text(rendered.as_slice())
        },
    };
    CanonicalAuthority { host: CanonicalHost(host), explicit_port: authority.port }
}

fn endpoint_key<'a>(authority: &'a CanonicalAuthority, default: SchemeDefault) -> (key: (
    &'a CanonicalHost,
    Option<u16>,
))
    ensures
        *key.0 == authority.host,
        key.1 == reached_port(authority.explicit_port, default.0),
{
    let port: Option<u16> = match authority.explicit_port {
        Some(port) => Some(port),
        None => default.0,
    };
    (&authority.host, port)
}

fn same_key(left: (&CanonicalHost, Option<u16>), right: (&CanonicalHost, Option<u16>)) -> (same:
    bool)
    ensures
        same == (utf8(left.0.0@) == utf8(right.0.0@) && left.1 == right.1),
{
    same_text(left.0.0.as_str(), right.0.0.as_str()) && left.1 == right.1
}

fn as_effective(authority: CanonicalAuthority, default: SchemeDefault) -> (rendered:
    EffectiveAuthority)
    ensures
        rendered@ == effective(authority.model(), default.0),
{
    let port: Option<u16> = match authority.explicit_port {
        Some(explicit) => if default.0 == Some(explicit) {
            None
        } else {
            Some(explicit)
        },
        None => None,
    };
    EffectiveAuthority { host: authority.host.0, port }
}

} // verus!
