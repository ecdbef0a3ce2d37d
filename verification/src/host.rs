//! Hosts, ports and the endpoints that they make up.

use vstd::prelude::*;
use crate::bytes::{
    ByteClass, all_bytes_in, all_in, find_in, first_in, is_control, lemma_first_in,
    lemma_split_all, lowered, slices_of, split, split_on,
};
use crate::decimal::{decimal, is_decimal, parse_decimal};
use crate::ip::{is_ipv6, is_ipv6_text, lemma_ipv6_bytes};
use crate::text::{is_ascii, lowered_text};
use crate::types::{AuthorityModel, EffectiveAuthority};

verus! {

/// The most bytes of a DNS name and of a label of it.
pub const MAX_DNS_NAME_BYTES: usize = 253;

pub const MAX_DNS_LABEL_BYTES: usize = 63;

/// Whether a byte string is a DNS label: letters, digits and inner hyphens.
pub open spec fn is_dns_label(s: Seq<u8>) -> bool {
    &&& 1 <= s.len() <= MAX_DNS_LABEL_BYTES
    &&& s[0] != '-' as u8
    &&& s.last() != '-' as u8
    &&& all_in(s, ByteClass::Label)
}

/// Whether a byte string is a DNS name without a final dot.
pub open spec fn is_dns_name(s: Seq<u8>) -> bool {
    &&& 1 <= s.len() <= MAX_DNS_NAME_BYTES
    &&& forall|i: int|
        0 <= i < split(s, '.' as u8).len() ==> is_dns_label(#[trigger] split(s, '.' as u8)[i])
}

/// A DNS name's bytes are label bytes and dots.
pub proof fn lemma_dns_name_bytes(s: Seq<u8>)
    requires
        is_dns_name(s),
    ensures
        forall|j: int| 0 <= j < s.len() ==> ByteClass::Label.has(#[trigger] s[j]) || s[j]
            == '.' as u8,
{
    let labels = split(s, '.' as u8);
    assert forall|i: int| 0 <= i < labels.len() implies all_in(
        #[trigger] labels[i],
        ByteClass::Label,
    ) by {
        assert(is_dns_label(labels[i]));
    }
    lemma_split_all(s, '.' as u8, ByteClass::Label);
}

/// The name without a final dot.
pub open spec fn without_final_dot(s: Seq<u8>) -> Seq<u8> {
    if s.len() > 0 && s.last() == '.' as u8 {
        s.drop_last()
    } else {
        s
    }
}

/// The port that digits stand for: one to 65535.
pub open spec fn port_number(s: Seq<u8>) -> Option<u16> {
    if is_decimal(s, u16::MAX as nat) && decimal(s) >= 1 {
        Some(decimal(s) as u16)
    } else {
        None
    }
}

/// The endpoint of a bracketed IPv6 address with an optional port.
pub open spec fn bracketed_endpoint(s: Seq<u8>) -> Option<AuthorityModel> {
    let close = first_in(s, ByteClass::Only(']' as u8));
    let rest = s.skip(close + 1);
    if close >= s.len() || !is_ipv6(s.subrange(1, close)) {
        None
    } else if rest.len() == 0 {
        Some(AuthorityModel { host: lowered(s.take(close + 1)), port: None })
    } else if rest[0] == ':' as u8 && port_number(rest.skip(1)) is Some {
        Some(
            AuthorityModel {
                host: lowered(s.take(close + 1)),
                port: port_number(rest.skip(1)),
            },
        )
    } else {
        None
    }
}

/// The endpoint of a DNS name with an optional port.
pub open spec fn dns_endpoint(s: Seq<u8>) -> Option<AuthorityModel> {
    let colon = first_in(s, ByteClass::Only(':' as u8));
    let host = without_final_dot(s.take(colon));
    if !is_dns_name(host) {
        None
    } else if colon >= s.len() {
        Some(AuthorityModel { host: lowered(host), port: None })
    } else if port_number(s.skip(colon + 1)) is Some {
        Some(AuthorityModel { host: lowered(host), port: port_number(s.skip(colon + 1)) })
    } else {
        None
    }
}

/// The endpoint that an authority names, in canonical form: a host in lower case, without a final
/// dot, and a port where one is given.
pub open spec fn endpoint(s: Seq<u8>) -> Option<AuthorityModel> {
    if s.len() > 0 && s[0] == '[' as u8 {
        bracketed_endpoint(s)
    } else {
        dns_endpoint(s)
    }
}

/// An authority that names an endpoint holds authority bytes only.
pub proof fn lemma_endpoint_bytes(s: Seq<u8>)
    requires
        endpoint(s) is Some,
    ensures
        s.len() > 0,
        all_in(s, ByteClass::Authority),
{
    if s.len() > 0 && s[0] == '[' as u8 {
        let close = first_in(s, ByteClass::Only(']' as u8));
        lemma_first_in(s, ByteClass::Only(']' as u8));
        lemma_ipv6_bytes(s.subrange(1, close));
        let rest = s.skip(close + 1);
        assert forall|j: int| 0 <= j < s.len() implies ByteClass::Authority.has(#[trigger] s[j]) by {
            if 1 <= j < close {
                assert(s.subrange(1, close)[j - 1] == s[j]);
            } else if j > close + 1 {
                assert(ByteClass::Digit.has(rest.skip(1)[j - close - 2]));
                assert(rest.skip(1)[j - close - 2] == s[j]);
            }
        }
    } else {
        let colon = first_in(s, ByteClass::Only(':' as u8));
        lemma_first_in(s, ByteClass::Only(':' as u8));
        let spelled = s.take(colon);
        let host = without_final_dot(spelled);
        lemma_dns_name_bytes(host);
        assert forall|j: int| 0 <= j < s.len() implies ByteClass::Authority.has(#[trigger] s[j]) by {
            if j < host.len() {
                assert(host[j] == s[j]);
            } else if j < colon {
                assert(s[j] == spelled.last());
            } else if j > colon {
                assert(ByteClass::Digit.has(s.skip(colon + 1)[j - colon - 1]));
                assert(s.skip(colon + 1)[j - colon - 1] == s[j]);
            }
        }
    }
}

/// Whether the bytes are a DNS label.
pub fn is_label(s: &[u8]) -> (valid: bool)
    ensures
        valid == is_dns_label(s@),
{
    s.len() >= 1 && s.len() <= MAX_DNS_LABEL_BYTES && s[0] != '-' as u8 && s[s.len() - 1]
        != '-' as u8 && all_bytes_in(s, ByteClass::Label)
}

/// Whether the bytes are a DNS name.
pub fn is_dns(s: &[u8]) -> (valid: bool)
    ensures
        valid == is_dns_name(s@),
{
    if s.len() == 0 || s.len() > MAX_DNS_NAME_BYTES {
        return false;
    }
    let labels: Vec<&[u8]> = split_on(s, '.' as u8);
    let ghost pieces = split(s@, '.' as u8);
    assert(slices_of(labels@).len() == labels@.len());
    let mut i: usize = 0;
    while i < labels.len()
        invariant
            i <= labels@.len(),
            labels@.len() == pieces.len(),
            pieces == slices_of(labels@),
            pieces == split(s@, '.' as u8),
            1 <= s@.len() <= MAX_DNS_NAME_BYTES,
            forall|j: int| 0 <= j < i ==> is_dns_label(#[trigger] pieces[j]),
        decreases labels@.len() - i,
    {
        assert(pieces[i as int] == labels@[i as int]@);
        if !is_label(labels[i]) {
            return false;
        }
        i += 1;
    }
    true
}

/// The bytes without a final dot.
pub fn strip_final_dot<'a>(s: &'a [u8]) -> (stripped: &'a [u8])
    ensures
        stripped@ == without_final_dot(s@),
{
    if s.len() > 0 && s[s.len() - 1] == '.' as u8 {
        let stripped: &'a [u8] = &s[0..s.len() - 1];
        assert(stripped@ =~= s@.drop_last());
        stripped
    } else {
        s
    }
}

/// The port that digits stand for.
pub fn parse_port_number(s: &[u8]) -> (port: Option<u16>)
    ensures
        port == port_number(s@),
{
    match parse_decimal(s) {
        Some(value) if 1 <= value && value <= 65_535 => Some(value as u16),
        _ => None,
    }
}

/// Whether some byte of an authority is none that an authority may hold.
pub fn has_foreign_byte(s: &[u8]) -> (foreign: bool)
    ensures
        foreign ==> endpoint(s@) is None,
        !foreign ==> is_ascii(s@),
{
    let mut i: usize = 0;
    while i < s.len()
        invariant
            i <= s@.len(),
            forall|j: int| 0 <= j < i ==> #[trigger] s@[j] < 0x80,
        decreases s@.len() - i,
    {
        let byte: u8 = s[i];
        if byte >= 0x80 || is_control(byte) || byte == ' ' as u8 || byte == ',' as u8 || byte
            == '@' as u8 || byte == '/' as u8 || byte == '?' as u8 || byte == '#' as u8 || byte
            == '%' as u8 {
            proof {
                if endpoint(s@) is Some {
                    lemma_endpoint_bytes(s@);
                    assert(ByteClass::Authority.has(s@[i as int]));
                }
            }
            return true;
        }
        i += 1;
    }
    false
}

/// The endpoint that an authority names.
pub fn parse_endpoint(raw: &[u8]) -> (parsed: Option<EffectiveAuthority>)
    ensures
        match parsed {
            Some(authority) => endpoint(raw@) == Some(authority@),
            None => endpoint(raw@) is None,
        },
{
    if has_foreign_byte(raw) {
        return None;
    }
    if raw.len() > 0 && raw[0] == '[' as u8 {
        parse_bracketed(raw)
    } else {
        parse_dns(raw)
    }
}

fn parse_bracketed(raw: &[u8]) -> (parsed: Option<EffectiveAuthority>)
    requires
        raw@.len() > 0,
        raw@[0] == '[' as u8,
        is_ascii(raw@),
    ensures
        match parsed {
            Some(authority) => bracketed_endpoint(raw@) == Some(authority@),
            None => bracketed_endpoint(raw@) is None,
        },
{
    let close: usize = find_in(raw, ByteClass::Only(']' as u8));
    if close == raw.len() || !is_ipv6_text(&raw[1..close]) {
        return None;
    }
    let host_bytes: &[u8] = &raw[0..close + 1];
    assert(host_bytes@ =~= raw@.take(close + 1));
    let host: String = lowered_text(host_bytes);
    if close + 1 == raw.len() {
        return Some(EffectiveAuthority { host, port: None });
    }
    if raw[close + 1] != ':' as u8 {
        return None;
    }
    let digits: &[u8] = &raw[close + 2..raw.len()];
    assert(digits@ =~= raw@.skip(close + 1).skip(1));
    match parse_port_number(digits) {
        Some(port) => Some(EffectiveAuthority { host, port: Some(port) }),
        None => None,
    }
}

fn parse_dns(raw: &[u8]) -> (parsed: Option<EffectiveAuthority>)
    requires
        is_ascii(raw@),
    ensures
        match parsed {
            Some(authority) => dns_endpoint(raw@) == Some(authority@),
            None => dns_endpoint(raw@) is None,
        },
{
    let colon: usize = find_in(raw, ByteClass::Only(':' as u8));
    let spelled_host: &[u8] = &raw[0..colon];
    assert(spelled_host@ =~= raw@.take(colon as int));
    let host_bytes: &[u8] = strip_final_dot(spelled_host);
    if !is_dns(host_bytes) {
        return None;
    }
    let host: String = lowered_text(host_bytes);
    if colon == raw.len() {
        return Some(EffectiveAuthority { host, port: None });
    }
    let digits: &[u8] = &raw[colon + 1..raw.len()];
    assert(digits@ =~= raw@.skip(colon + 1));
    match parse_port_number(digits) {
        Some(port) => Some(EffectiveAuthority { host, port: Some(port) }),
        None => None,
    }
}

} // verus!
