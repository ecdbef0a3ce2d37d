//! Authority reconciliation by a decision table over validated values.

use vstd::prelude::*;
use crate::authority::{
    effective, find_host, host_value, reconciled, same_endpoint, shaped, slice_opt,
};
use crate::bytes::{ByteClass, find_in, lowered, same_ignoring_case};
use crate::host::{
    bracketed_endpoint, dns_endpoint, endpoint, has_foreign_byte, is_dns, parse_port_number,
    port_number, strip_final_dot,
};
use crate::ip::is_ipv6_text;
use crate::text::{is_ascii, lowered_text, same_text};
use crate::types::{
    AuthorityModel, EffectiveAuthority, Fault, HeaderBlock, NormalizedTarget, PolyguardError,
    Result, TargetForm, outcome,
};

verus! {

#[derive(Clone, Copy)]
struct DefaultPort(Option<u16>);

#[derive(Clone, Copy)]
enum ValidHost<'a> {
    Dns(&'a [u8]),
    Ipv6(&'a [u8]),
}

#[derive(Clone, Copy)]
struct ValidAuthority<'a> {
    host: ValidHost<'a>,
    explicit_port: Option<u16>,
}

impl<'a> ValidHost<'a> {
    /// The host as it is spelled.
    spec fn spelling(self) -> Seq<u8> {
        match self {
            ValidHost::Dns(name) => name@,
            ValidHost::Ipv6(literal) => literal@,
        }
    }

    /// A bracketed literal is one that starts with a bracket, and no name does.
    spec fn well_formed(self) -> bool {
        &&& is_ascii(self.spelling())
        &&& self.spelling().len() > 0
        &&& self is Ipv6 <==> self.spelling()[0] == '[' as u8
    }
}

impl<'a> ValidAuthority<'a> {
    spec fn model(self) -> AuthorityModel {
        AuthorityModel { host: lowered(self.host.spelling()), port: self.explicit_port }
    }
}

enum HostInput<'a> {
    Absent,
    One(&'a [u8]),
}

struct ReconciliationInputs<'target, 'header> {
    target: Option<&'target [u8]>,
    header: Option<&'header [u8]>,
    default_port: DefaultPort,
}

/// Derive the effective authority from a form/cardinality decision table and
/// equality invariants over validated wrapper values.
pub fn reconcile_authority(target: &NormalizedTarget, headers: &HeaderBlock) -> (result: Result<
    EffectiveAuthority,
>)
    ensures
        outcome(result) == reconciled(target@, headers@.fields),
{
    let host = inspect_host_fields(headers)?;
    let inputs = decide_inputs(target, host)?;
    // Both sources become validated values before comparison or rendering.
    let target_authority: Option<ValidAuthority<'_>> = match inputs.target {
        Some(text) => Some(ValidAuthority::parse(text)?),
        None => None,
    };
    let header_authority: Option<ValidAuthority<'_>> = match inputs.header {
        Some(text) => Some(ValidAuthority::parse(text)?),
        None => None,
    };
    match (target_authority, header_authority) {
        (Some(from_target), Some(from_header)) => {
            if !from_target.same_endpoint_as(from_header, inputs.default_port) {
                return Err(PolyguardError::AuthorityMismatch);
            }
            Ok(from_target.into_effective(inputs.default_port))
        },
        (Some(from_target), None) => Ok(from_target.into_effective(inputs.default_port)),
        (None, Some(from_header)) => Ok(from_header.into_effective(inputs.default_port)),
        (None, None) => Err(PolyguardError::MissingHost),
    }
}

fn inspect_host_fields<'a>(headers: &'a HeaderBlock) -> (inspected: Result<HostInput<'a>>)
    ensures
        match inspected {
            Ok(HostInput::One(value)) => host_value(headers@.fields) == Ok::<
                Option<Seq<u8>>,
                Fault,
            >(Some(value@)),
            Ok(HostInput::Absent) => host_value(headers@.fields) == Ok::<Option<Seq<u8>>, Fault>(
                None,
            ),
            Err(e) => host_value(headers@.fields) == Err::<Option<Seq<u8>>, Fault>(e@),
        },
{
    match find_host(headers)? {
        Some(value) => Ok(HostInput::One(value)),
        None => Ok(HostInput::Absent),
    }
}

fn decide_inputs<'target, 'header>(
    target: &'target NormalizedTarget,
    host: HostInput<'header>,
) -> (decided: Result<ReconciliationInputs<'target, 'header>>)
    ensures
        ({
            let header = match host {
                HostInput::One(value) => Some(value@),
                HostInput::Absent => None,
            };
            match decided {
                Ok(inputs) => {
                    &&& shaped(target@) == Some(inputs.default_port.0)
                    &&& slice_opt(inputs.target) == target@.authority
                    &&& slice_opt(inputs.header) == header
                    &&& inputs.target is Some || inputs.header is Some
                },
                Err(e) => match shaped(target@) {
                    Some(default) => e@ is MissingHost && target@.authority is None
                        && header is None,
                    None => e@ is InvalidAuthority,
                },
            }
        }),
{
    let header: Option<&'header [u8]> = match host {
        HostInput::Absent => None,
        HostInput::One(value) => Some(value),
    };
    // This table is the only place where target shape, Host cardinality, and
    // scheme defaults influence control flow.
    match (&target.form, &target.scheme, &target.authority, header) {
        (TargetForm::Origin | TargetForm::Asterisk, None, None, Some(value)) => Ok(
            ReconciliationInputs {
                target: None,
                header: Some(value),
                default_port: DefaultPort(None),
            },
        ),
        (TargetForm::Origin | TargetForm::Asterisk, None, None, None) => Err(
            PolyguardError::MissingHost,
        ),
        (TargetForm::Absolute, Some(scheme), Some(authority), _) => {
            let default: Option<u16> = if same_text(scheme.as_str(), "http") {
                Some(80)
            } else if same_text(scheme.as_str(), "https") {
                Some(443)
            } else {
                return Err(PolyguardError::InvalidAuthority);
            };
            Ok(
                ReconciliationInputs {
                    target: Some(authority.as_str().as_bytes()),
                    header,
                    default_port: DefaultPort(default),
                },
            )
        },
        (TargetForm::Authority, None, Some(authority), _) => Ok(
            ReconciliationInputs {
                target: Some(authority.as_str().as_bytes()),
                header,
                default_port: DefaultPort(None),
            },
        ),
        _ => Err(PolyguardError::InvalidAuthority),
    }
}

impl<'a> ValidAuthority<'a> {
    fn parse(input: &'a [u8]) -> (parsed: Result<Self>)
        ensures
            match parsed {
                Ok(v) => endpoint(input@) == Some(v.model()) && v.host.well_formed(),
                Err(e) => endpoint(input@) is None && e@ is InvalidAuthority,
            },
    {
        reject_forbidden_authority_bytes(input)?;
        if input[0] == '[' as u8 {
            Self::parse_ipv6(input)
        } else {
            Self::parse_dns(input)
        }
    }

    fn parse_ipv6(input: &'a [u8]) -> (parsed: Result<Self>)
        requires
            input@.len() > 0,
            input@[0] == '[' as u8,
            is_ascii(input@),
        ensures
            match parsed {
                Ok(v) => bracketed_endpoint(input@) == Some(v.model()) && v.host.well_formed(),
                Err(e) => bracketed_endpoint(input@) is None && e@ is InvalidAuthority,
            },
    {
        let closing: usize = find_in(input, ByteClass::Only(']' as u8));
        if closing == input.len() {
            return Err(PolyguardError::InvalidAuthority);
        }
        let address: &[u8] = &input[1..closing];
        if address.len() == 0 || !is_ipv6_text(address) {
            return Err(PolyguardError::InvalidAuthority);
        }
        let suffix: &[u8] = &input[closing + 1..input.len()];
        assert(suffix@ =~= input@.skip(closing + 1));
        let explicit_port: Option<u16> = if suffix.len() == 0 {
            None
        } else {
            if suffix[0] != ':' as u8 {
                return Err(PolyguardError::InvalidAuthority);
            }
            assert(suffix@.skip(1) =~= suffix@.subrange(1, suffix@.len() as int));
            Some(parse_port(&suffix[1..suffix.len()])?)
        };
        let literal: &'a [u8] = &input[0..closing + 1];
        assert(literal@ =~= input@.take(closing + 1));
        Ok(ValidAuthority { host: ValidHost::Ipv6(literal), explicit_port })
    }

    fn parse_dns(input: &'a [u8]) -> (parsed: Result<Self>)
        requires
            input@.len() > 0,
            input@[0] != '[' as u8,
            is_ascii(input@),
        ensures
            match parsed {
                Ok(v) => dns_endpoint(input@) == Some(v.model()) && v.host.well_formed(),
                Err(e) => dns_endpoint(input@) is None && e@ is InvalidAuthority,
            },
    {
        let colon: usize = find_in(input, ByteClass::Only(':' as u8));
        let spelled: &'a [u8] = &input[0..colon];
        assert(spelled@ =~= input@.take(colon as int));
        let explicit_port: Option<u16> = if colon == input.len() {
            None
        } else {
            let digits: &[u8] = &input[colon + 1..input.len()];
            assert(digits@ =~= input@.skip(colon + 1));
            Some(parse_port(digits)?)
        };
        let name: &'a [u8] = strip_final_dot(spelled);
        if !is_dns(name) {
            return Err(PolyguardError::InvalidAuthority);
        }
        assert(is_ascii(name@));
        assert(name@[0] == input@[0]);
        Ok(ValidAuthority { host: ValidHost::Dns(name), explicit_port })
    }

    fn same_endpoint_as(self, other: Self, default: DefaultPort) -> (same: bool)
        requires
            self.host.well_formed(),
            other.host.well_formed(),
        ensures
            same == same_endpoint(self.model(), other.model(), default.0),
    {
        let own_port: Option<u16> = match self.explicit_port {
            Some(port) => Some(port),
            None => default.0,
        };
        let other_port: Option<u16> = match other.explicit_port {
            Some(port) => Some(port),
            None => default.0,
        };
        self.host.same_canonical_host(other.host) && own_port == other_port
    }

    fn into_effective(self, default: DefaultPort) -> (rendered: EffectiveAuthority)
        requires
            self.host.well_formed(),
        ensures
            rendered@ == effective(self.model(), default.0),
    {
        let port: Option<u16> = match self.explicit_port {
            Some(port) => if default.0 == Some(port) {
                None
            } else {
                Some(port)
            },
            None => None,
        };
        EffectiveAuthority { host: lowered_text(self.host.as_bytes()), port }
    }
}

impl<'a> ValidHost<'a> {
    fn as_bytes(self) -> (bytes: &'a [u8])
        ensures
            bytes@ == self.spelling(),
    {
        match self {
            ValidHost::Dns(value) | ValidHost::Ipv6(value) => value,
        }
    }

    fn same_canonical_host(self, other: Self) -> (same: bool)
        requires
            self.well_formed(),
            other.well_formed(),
        ensures
            same == (lowered(self.spelling()) == lowered(other.spelling())),
    {
        match (self, other) {
            (ValidHost::Dns(left), ValidHost::Dns(right)) | (
                ValidHost::Ipv6(left),
                ValidHost::Ipv6(right),
            ) => same_ignoring_case(left, right),
            _ => {
                assert(lowered(self.spelling())[0] != lowered(other.spelling())[0]);
                false
            },
        }
    }
}

fn reject_forbidden_authority_bytes(input: &[u8]) -> (checked: Result<()>)
    ensures
        match checked {
            Ok(_) => input@.len() > 0 && is_ascii(input@),
            Err(e) => endpoint(input@) is None && e@ is InvalidAuthority,
        },
{
    if input.len() == 0 || has_foreign_byte(input) {
        Err(PolyguardError::InvalidAuthority)
    } else {
        Ok(())
    }
}

fn parse_port(input: &[u8]) -> (port: Result<u16>)
    ensures
        match port {
            Ok(p) => port_number(input@) == Some(p),
            Err(e) => port_number(input@) is None && e@ is InvalidAuthority,
        },
{
    match parse_port_number(input) {
        Some(port) => Ok(port),
        None => Err(PolyguardError::InvalidAuthority),
    }
}

} // verus!
