//! Authority reconciliation from composable components.

use vstd::prelude::*;
use crate::authority::{
    members_repeat, only_host_any_case, reached_port, reconciled_leniently, scheme_default,
    slice_opt,
};
use crate::bytes::{
    ByteClass, all_bytes_in, any_byte_in, find_in, first_in, lower_bytes, lowered, same_lowered,
    split, split_on,
};
use crate::host::{
    endpoint, is_dns, is_dns_name, lemma_endpoint_bytes, parse_port_number, port_number,
    strip_final_dot, without_final_dot,
};
use crate::ip::{is_ipv6, is_ipv6_text};
use crate::text::{append, ascii_text, is_ascii, lowered_text, same_bytes, same_text, utf8};
use crate::types::{
    AuthorityModel, EffectiveAuthority, Fault, HeaderBlock, HeaderField, NormalizedTarget,
    PolyguardError, Result, TargetForm, fields_of, outcome,
};

verus! {

struct Authority {
    host: String,
    port: Option<u16>,
}

impl Authority {
    spec fn model(self) -> AuthorityModel {
        AuthorityModel { host: utf8(self.host@), port: self.port }
    }
}

enum HostSyntax<'a> {
    Dns(&'a [u8]),
    Ipv6(&'a [u8]),
}

pub fn reconcile_authority(target: &NormalizedTarget, headers: &HeaderBlock) -> (result: Result<
    EffectiveAuthority,
>)
    ensures
        outcome(result) == reconciled_leniently(target@, headers@.fields),
{
    // Phase 1: establish Host cardinality before interpreting any field value. This makes a
    // repeated or list-shaped Host unambiguously a multiplicity error, even when one member
    // would independently be malformed.
    let host_value = single_host_value(headers)?;
    require_host_for_form(&target.form, host_value)?;
    // Phase 2: validate both external authority spellings at the public boundary. Later phases
    // only receive canonical hosts and bounded numeric ports.
    let header_authority: Option<Authority> = match host_value {
        Some(value) => Some(parse_authority(value)?),
        None => None,
    };
    let target_authority: Option<Authority> = match &target.authority {
        Some(value) => Some(parse_authority(value.as_str().as_bytes())?),
        None => None,
    };
    let default_port: Option<u16> = default_port(target);
    // Phase 3: compare semantic endpoints, then render the preferred target spelling while
    // suppressing a scheme-default port.
    let selected = match (target_authority, header_authority) {
        (Some(from_target), Some(from_header)) => {
            let disagreement: bool = !same_text(
                from_target.host.as_str(),
                from_header.host.as_str(),
            ) || comparable_port(from_target.port, default_port) != comparable_port(
                from_header.port,
                default_port,
            );
            if disagreement {
                return Err(PolyguardError::AuthorityMismatch);
            }
            from_target
        },
        (Some(from_target), None) => from_target,
        (None, Some(from_header)) => from_header,
        (None, None) => return Err(PolyguardError::MissingHost),
    };
    let port: Option<u16> = match selected.port {
        Some(port) => if default_port == Some(port) {
            None
        } else {
            Some(port)
        },
        None => None,
    };
    Ok(EffectiveAuthority { host: selected.host, port })
}

fn single_host_value<'a>(headers: &'a HeaderBlock) -> (host: Result<Option<&'a [u8]>>)
    ensures
        match host {
            Ok(value) => only_host_any_case(headers@.fields, 0, None) == Ok::<
                Option<Seq<u8>>,
                Fault,
            >(slice_opt(value)),
            Err(e) => only_host_any_case(headers@.fields, 0, None) == Err::<Option<Seq<u8>>, Fault>(
                e@,
            ),
        },
{
    let mut found: Option<&'a [u8]> = None;
    let mut index: usize = 0;
    let ghost models = headers@.fields;
    while index < headers.fields.len()
        invariant
            index <= headers.fields@.len(),
            models == fields_of(headers.fields@),
            models == headers@.fields,
            only_host_any_case(models, 0, None) == only_host_any_case(
                models,
                index as int,
                slice_opt(found),
            ),
        decreases headers.fields@.len() - index,
    {
        let field: &'a HeaderField = &headers.fields[index];
        assert(models[index as int] == field@);
        if same_lowered(field.name.as_str().as_bytes(), "host".as_bytes()) {
            if found.is_some() || is_repeated_comma_value(field.value.as_slice()) {
                return Err(PolyguardError::MultipleHost);
            }
            found = Some(field.value.as_slice());
        }
        index += 1;
    }
    Ok(found)
}

fn is_repeated_comma_value(value: &[u8]) -> (repeated: bool)
    ensures
        repeated == (split(value@, ',' as u8).len() > 1 && members_repeat(value@)),
{
    let members: Vec<&[u8]> = split_on(value, ',' as u8);
    let first: &[u8] = members[0];
    let mut count: usize = 1;
    while count < members.len()
        invariant
            1 <= count <= members@.len(),
            members@.len() == split(value@, ',' as u8).len(),
            first@ == split(value@, ',' as u8)[0],
            forall|i: int|
                0 <= i < members@.len() ==> (#[trigger] members@[i])@ == split(value@, ',' as u8)[i],
            forall|i: int|
                0 <= i < count ==> #[trigger] split(value@, ',' as u8)[i] == split(
                    value@,
                    ',' as u8,
                )[0],
        decreases members@.len() - count,
    {
        assert(members@[count as int]@ == split(value@, ',' as u8)[count as int]);
        if !same_bytes(members[count], first) {
            return false;
        }
        count += 1;
    }
    count > 1
}

fn require_host_for_form(form: &TargetForm, host: Option<&[u8]>) -> (required: Result<()>)
    ensures
        match required {
            Ok(_) => !((form is Origin || form is Asterisk) && host is None),
            Err(e) => (form is Origin || form is Asterisk) && host is None && e@ is MissingHost,
        },
{
    if matches!(form, TargetForm::Origin | TargetForm::Asterisk) && host.is_none() {
        return Err(PolyguardError::MissingHost);
    }
    Ok(())
}

fn parse_authority(input: &[u8]) -> (authority: Result<Authority>)
    ensures
        match authority {
            Ok(a) => endpoint(input@) == Some(a.model()),
            Err(e) => endpoint(input@) is None && e@ is InvalidAuthority,
        },
{
    proof {
        if endpoint(input@) is Some {
            lemma_endpoint_bytes(input@);
        }
    }
    if input.len() == 0 || !all_bytes_in(input, ByteClass::Ascii) {
        return Err(PolyguardError::InvalidAuthority);
    }
    assert(forall|i: int| 0 <= i < input@.len() ==> ByteClass::Ascii.has(#[trigger] input@[i]));
    let (syntax, port_text) = separate_host_and_port(input)?;
    let host: String = match syntax {
        HostSyntax::Dns(value) => canonical_dns(value)?,
        HostSyntax::Ipv6(value) => canonical_ipv6(value)?,
    };
    let port: Option<u16> = match port_text {
        Some(text) => Some(parse_port(text)?),
        None => None,
    };
    proof {
        if let HostSyntax::Ipv6(value) = syntax {
            let close = first_in(input@, ByteClass::Only(']' as u8));
            assert(lowered(input@.take(close + 1)) =~= seq!['[' as u8] + lowered(value@) + seq![
                ']' as u8,
            ]);
        }
    }
    Ok(Authority { host, port })
}

/// What a separated authority says of the whole.
spec fn separates(text: Seq<u8>, syntax: HostSyntax<'_>, port: Option<Seq<u8>>) -> bool {
    match syntax {
        HostSyntax::Ipv6(literal) => {
            let close = first_in(text, ByteClass::Only(']' as u8));
            &&& text[0] == '[' as u8
            &&& close < text.len()
            &&& text[close] == ']' as u8
            &&& close > 0
            &&& literal@ == text.subrange(1, close)
            &&& match port {
                Some(digits) => close + 1 < text.len() && text[close + 1] == ':' as u8 && digits
                    == text.skip(close + 1).skip(1),
                None => close + 1 == text.len(),
            }
        },
        HostSyntax::Dns(name) => {
            let colon = first_in(text, ByteClass::Only(':' as u8));
            &&& text[0] != '[' as u8
            &&& name@ == text.take(colon)
            &&& match port {
                Some(digits) => colon < text.len() && digits == text.skip(colon + 1),
                None => colon == text.len(),
            }
        },
    }
}

fn separate_host_and_port<'a>(text: &'a [u8]) -> (separated: Result<
    (HostSyntax<'a>, Option<&'a [u8]>),
>)
    requires
        text@.len() > 0,
        is_ascii(text@),
    ensures
        match separated {
            Ok((syntax, port)) => {
                &&& separates(text@, syntax, slice_opt(port))
                &&& match syntax {
                    HostSyntax::Dns(v) => is_ascii(v@),
                    HostSyntax::Ipv6(v) => is_ascii(v@),
                }
            },
            Err(e) => endpoint(text@) is None && e@ is InvalidAuthority,
        },
{
    if text[0] == '[' as u8 {
        let close: usize = find_in(text, ByteClass::Only(']' as u8));
        if close == text.len() {
            return Err(PolyguardError::InvalidAuthority);
        }
        let literal: &'a [u8] = &text[1..close];
        let suffix: &'a [u8] = &text[close + 1..text.len()];
        assert(suffix@ =~= text@.skip(close + 1));
        let port: Option<&'a [u8]> = if suffix.len() == 0 {
            None
        } else {
            if suffix[0] != ':' as u8 || suffix.len() == 1 {
                assert(suffix@.len() == 1 ==> suffix@.skip(1) =~= Seq::<u8>::empty());
                return Err(PolyguardError::InvalidAuthority);
            }
            let digits: &'a [u8] = &suffix[1..suffix.len()];
            assert(digits@ =~= suffix@.skip(1));
            Some(digits)
        };
        return Ok((HostSyntax::Ipv6(literal), port));
    }
    let colon: usize = find_in(text, ByteClass::Only(':' as u8));
    let host: &'a [u8] = &text[0..colon];
    assert(host@ =~= text@.take(colon as int));
    if colon == text.len() {
        return Ok((HostSyntax::Dns(host), None));
    }
    let port: &'a [u8] = &text[colon + 1..text.len()];
    assert(port@ =~= text@.skip(colon + 1));
    if any_byte_in(port, ByteClass::Only(':' as u8)) || host.len() == 0 || port.len() == 0 {
        return Err(PolyguardError::InvalidAuthority);
    }
    Ok((HostSyntax::Dns(host), Some(port)))
}

fn canonical_dns(text: &[u8]) -> (host: Result<String>)
    requires
        is_ascii(text@),
    ensures
        match host {
            Ok(h) => is_dns_name(without_final_dot(text@)) && utf8(h@) == lowered(
                without_final_dot(text@),
            ),
            Err(e) => !is_dns_name(without_final_dot(text@)) && e@ is InvalidAuthority,
        },
{
    let name: &[u8] = strip_final_dot(text);
    if !is_dns(name) {
        return Err(PolyguardError::InvalidAuthority);
    }
    assert(is_ascii(name@));
    Ok(lowered_text(name))
}

fn canonical_ipv6(text: &[u8]) -> (host: Result<String>)
    requires
        is_ascii(text@),
    ensures
        match host {
            Ok(h) => is_ipv6(text@) && utf8(h@) == seq!['[' as u8] + lowered(text@) + seq![
                ']' as u8,
            ],
            Err(e) => !is_ipv6(text@) && e@ is InvalidAuthority,
        },
{
    if text.len() == 0 || !is_ipv6_text(text) {
        return Err(PolyguardError::InvalidAuthority);
    }
    let mut rendered: Vec<u8> = Vec::new();
    rendered.push('[' as u8);
    append(&mut rendered, lower_bytes(text).as_slice());
    rendered.push(']' as u8);
    assert(rendered@ =~= seq!['[' as u8] + lowered(text@) + seq![']' as u8]);
    Ok(ascii_text(rendered.as_slice()))
}

fn parse_port(text: &[u8]) -> (port: Result<u16>)
    ensures
        match port {
            Ok(p) => port_number(text@) == Some(p),
            Err(e) => port_number(text@) is None && e@ is InvalidAuthority,
        },
{
    match parse_port_number(text) {
        Some(port) => Ok(port),
        None => Err(PolyguardError::InvalidAuthority),
    }
}

fn default_port(target: &NormalizedTarget) -> (default: Option<u16>)
    ensures
        default == scheme_default(target@),
{
    if !matches!(target.form, TargetForm::Absolute) {
        return None;
    }
    match &target.scheme {
        Some(scheme) => {
            if same_text(scheme.as_str(), "http") {
                Some(80)
            } else if same_text(scheme.as_str(), "https") {
                Some(443)
            } else {
                None
            }
        },
        None => None,
    }
}

fn comparable_port(port: Option<u16>, default: Option<u16>) -> (reached: Option<u16>)
    ensures
        reached == reached_port(port, default),
{
    match port {
        Some(port) => Some(port),
        None => default,
    }
}

} // verus!
