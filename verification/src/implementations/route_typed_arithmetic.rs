//! Route choice over typed rule parts.

use std::collections::HashSet;
use vstd::prelude::*;
use crate::bytes::{
    ByteClass, any_byte_in, any_in, is_control, is_digit, is_hex, is_lower, is_visible,
    same_ignoring_case,
};
use crate::hex::hex_digit_value;
use crate::host::{MAX_DNS_NAME_BYTES, is_dns};
use crate::ip::{is_ipv6, is_ipv6_byte, is_ipv6_text, lemma_ipv6_bytes};
use crate::route::{
    ROUTE_LIMIT, best, covers, has_dots, is_canonical_path, is_route_host, is_route_prefix,
    is_unreserved, is_upstream_name, is_upstream_text, lemma_best, lemma_order_taken_next,
    order_taken, prefix_covers_path, route_fault, routed, routing_path, routing_path_of,
    rules_fault,
};
use crate::text::utf8;
use crate::types::{
    EffectiveAuthority, NormalizedTarget, PolyguardError, Result, RouteMatch, RouteRule,
    RuleModel, invalid_route, limit_exceeded, outcome, rules_of,
};

verus! {

broadcast use vstd::std_specs::hash::group_hash_axioms;

struct RoutingPath<'a>(&'a [u8]);

struct CanonicalHost<'a>(&'a [u8]);

#[derive(Clone, Copy)]
struct CanonicalPrefix<'a>(&'a [u8]);

#[derive(Clone, Copy)]
struct UpstreamName<'a>(&'a String);

#[derive(Clone, Copy)]
struct Candidate<'a> {
    prefix: CanonicalPrefix<'a>,
    upstream: UpstreamName<'a>,
    declaration_order: usize,
}

impl<'a> Candidate<'a> {
    /// Whether the candidate stands for a rule.
    spec fn stands_for(self, rule: RuleModel) -> bool {
        &&& self.prefix.0@ == rule.path_prefix
        &&& utf8(self.upstream.0@) == rule.upstream
        &&& self.declaration_order == rule.declaration_order
    }
}

impl<'a> RoutingPath<'a> {
    fn from_target(target: &'a NormalizedTarget) -> (path: Result<Self>)
        ensures
            match path {
                Ok(p) => routing_path(target@) == Some(p.0@),
                Err(e) => routing_path(target@) is None && e@ == route_fault("invalid_target"@),
            },
    {
        match routing_path_of(target) {
            Some(path) => Ok(RoutingPath(path)),
            None => Err(invalid_route("invalid_target")),
        }
    }
}

impl<'a> CanonicalHost<'a> {
    fn new(host: &'a str) -> (canonical: Result<Self>)
        ensures
            match canonical {
                Ok(h) => is_route_host(utf8(host@)) && h.0@ == utf8(host@),
                Err(e) => !is_route_host(utf8(host@)) && e@ == route_fault("invalid_host"@),
            },
    {
        let bytes: &'a [u8] = host.as_bytes();
        let valid: bool = if bytes.len() == 0 {
            false
        } else if bytes[0] == '[' as u8 && bytes[bytes.len() - 1] == ']' as u8 {
            let address: &[u8] = &bytes[1..bytes.len() - 1];
            is_lower_ipv6(address)
        } else if bytes.len() <= MAX_DNS_NAME_BYTES {
            is_dns(bytes) && !any_byte_in(bytes, ByteClass::Upper)
        } else {
            false
        };
        if valid {
            Ok(CanonicalHost(bytes))
        } else {
            Err(invalid_route("invalid_host"))
        }
    }
}

/// Whether the bytes are an IPv6 address with digits in lower case.
fn is_lower_ipv6(address: &[u8]) -> (valid: bool)
    ensures
        valid == (is_ipv6(address@) && !any_in(address@, ByteClass::Upper)),
{
    let mut index: usize = 0;
    while index < address.len()
        invariant
            index <= address@.len(),
            forall|j: int| 0 <= j < index ==> !ByteClass::Upper.has(#[trigger] address@[j]),
        decreases address@.len() - index,
    {
        let byte: u8 = address[index];
        if !(is_digit(byte) || ('a' as u8 <= byte && byte <= 'f' as u8) || byte == ':' as u8 || byte
            == '.' as u8) {
            proof {
                if is_ipv6(address@) {
                    lemma_ipv6_bytes(address@);
                    assert(is_ipv6_byte(address@[index as int]));
                    assert(ByteClass::Upper.has(address@[index as int]));
                }
            }
            return false;
        }
        index += 1;
    }
    is_ipv6_text(address)
}

impl<'a> CanonicalPrefix<'a> {
    fn new(prefix: &'a str) -> (canonical: Result<Self>)
        ensures
            match canonical {
                Ok(p) => is_route_prefix(utf8(prefix@), false) && p.0@ == utf8(prefix@),
                Err(e) => !is_route_prefix(utf8(prefix@), false) && e@ == route_fault(
                    "invalid_path_prefix"@,
                ),
            },
    {
        let bytes: &'a [u8] = prefix.as_bytes();
        let shape_is_valid: bool = bytes.len() > 0 && bytes[0] == '/' as u8 && (bytes.len() == 1
            || bytes[bytes.len() - 1] != '/' as u8);
        if !shape_is_valid {
            return Err(invalid_route("invalid_path_prefix"));
        }
        let mut position: usize = 0;
        while position < bytes.len()
            invariant
                position <= bytes@.len(),
                bytes@ == utf8(prefix@),
                is_canonical_path(bytes@, 0) == is_canonical_path(bytes@, position as int),
            decreases bytes@.len() - position,
        {
            let byte: u8 = bytes[position];
            if byte == '%' as u8 {
                if bytes.len() - position < 3 {
                    return Err(invalid_route("invalid_path_prefix"));
                }
                let high: u8 = bytes[position + 1];
                let low: u8 = bytes[position + 2];
                if !is_hex(high) || !is_hex(low) || is_lower(high) || is_lower(low) {
                    return Err(invalid_route("invalid_path_prefix"));
                }
                let decoded: u8 = hex_digit_value(high) * 16 + hex_digit_value(low);
                if is_unreserved(decoded) || decoded == '\\' as u8 || is_control(decoded) {
                    return Err(invalid_route("invalid_path_prefix"));
                }
                position += 3;
            } else if is_visible(byte) && byte != '\\' as u8 && byte != '?' as u8 && byte
                != '#' as u8 {
                position += 1;
            } else {
                return Err(invalid_route("invalid_path_prefix"));
            }
        }
        if has_dots(bytes) {
            return Err(invalid_route("invalid_path_prefix"));
        }
        Ok(CanonicalPrefix(bytes))
    }

    fn matches(&self, path: &RoutingPath<'_>) -> (matched: bool)
        ensures
            matched == covers(self.0@, path.0@),
    {
        prefix_covers_path(self.0, path.0)
    }
}

impl<'a> UpstreamName<'a> {
    fn new(upstream: &'a String) -> (name: Result<Self>)
        ensures
            match name {
                Ok(n) => is_upstream_name(utf8(upstream@)) && n.0@ == upstream@,
                Err(e) => !is_upstream_name(utf8(upstream@)) && e@ == route_fault(
                    "invalid_upstream"@,
                ),
            },
    {
        if is_upstream_text(upstream.as_str().as_bytes()) {
            Ok(UpstreamName(upstream))
        } else {
            Err(invalid_route("invalid_upstream"))
        }
    }
}

pub fn match_route(
    authority: &EffectiveAuthority,
    target: &NormalizedTarget,
    routes: &[RouteRule],
) -> (result: Result<RouteMatch>)
    ensures
        outcome(result) == routed(authority@, target@, rules_of(routes@), false),
{
    if routes.len() > ROUTE_LIMIT {
        return Err(limit_exceeded("route_count", ROUTE_LIMIT, routes.len()));
    }
    let path = RoutingPath::from_target(target)?;
    let mut orders: HashSet<usize> = HashSet::new();
    let mut winner: Option<Candidate<'_>> = None;
    let mut index: usize = 0;
    let ghost models = rules_of(routes@);
    let ghost wanted = authority@.host;
    while index < routes.len()
        invariant
            index <= routes@.len() <= ROUTE_LIMIT,
            models == rules_of(routes@),
            wanted == authority@.host,
            routing_path(target@) == Some(path.0@),
            rules_fault(models, 0, false) == rules_fault(models, index as int, false),
            forall|order: usize|
                #[trigger] orders@.contains(order) <==> order_taken(
                    models,
                    index as int,
                    order as int,
                ),
            match winner {
                Some(w) => best(models, index as int, wanted, path.0@) is Some && w.stands_for(
                    models[best(models, index as int, wanted, path.0@).unwrap()],
                ),
                None => best(models, index as int, wanted, path.0@) is None,
            },
        decreases routes@.len() - index,
    {
        let rule: &RouteRule = &routes[index];
        proof {
            assert(models[index as int] == rule@);
            lemma_order_taken_next(models, index as int);
            lemma_best(models, index as int, wanted, path.0@);
        }
        let host = CanonicalHost::new(rule.host.as_str())?;
        let prefix = CanonicalPrefix::new(rule.path_prefix.as_str())?;
        let upstream = UpstreamName::new(&rule.upstream)?;
        if !orders.insert(rule.declaration_order) {
            return Err(invalid_route("duplicate_declaration_order"));
        }
        if same_ignoring_case(host.0, authority.host.as_str().as_bytes()) && prefix.matches(&path) {
            let challenger = Candidate {
                prefix,
                upstream,
                declaration_order: rule.declaration_order,
            };
            winner = match winner {
                None => Some(challenger),
                Some(incumbent) => Some(better(challenger, incumbent)),
            };
        }
        index += 1;
    }
    match winner {
        Some(candidate) => Ok(
            RouteMatch {
                upstream: candidate.upstream.0.clone(),
                declaration_order: candidate.declaration_order,
            },
        ),
        None => Err(PolyguardError::NoRoute),
    }
}

/// The challenger where its prefix is longer, or as long and declared earlier; else the incumbent.
fn better<'a>(challenger: Candidate<'a>, incumbent: Candidate<'a>) -> (kept: Candidate<'a>)
    ensures
        kept == (if challenger.prefix.0@.len() > incumbent.prefix.0@.len() || (
        challenger.prefix.0@.len() == incumbent.prefix.0@.len() && challenger.declaration_order
            < incumbent.declaration_order) {
            challenger
        } else {
            incumbent
        }),
{
    if challenger.prefix.0.len() > incumbent.prefix.0.len() {
        challenger
    } else if challenger.prefix.0.len() < incumbent.prefix.0.len() {
        incumbent
    } else if challenger.declaration_order < incumbent.declaration_order {
        challenger
    } else {
        incumbent
    }
}

} // verus!
