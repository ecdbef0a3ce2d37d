//! Route choice directly from borrowed views of the rules.

use std::collections::HashSet;
use vstd::prelude::*;
use crate::bytes::same_ignoring_case;
use crate::route::{
    PATH_LIMIT, ROUTE_LIMIT, best, covers, has_canonical_escape, has_dots, is_canonical_escape,
    is_canonical_host, is_canonical_path, is_route_host, is_route_prefix, is_upstream_name,
    is_upstream_text, lemma_best, lemma_order_taken_next, order_taken, preferred,
    prefix_covers_path, route_fault, routed, routing_path, routing_path_of, rule_fault,
    rules_fault,
};
use crate::text::utf8;
use crate::types::{
    EffectiveAuthority, NormalizedTarget, PolyguardError, Result, RouteMatch, RouteRule,
    RuleModel, invalid_route, limit_exceeded, outcome, rules_of,
};

verus! {

broadcast use vstd::std_specs::hash::group_hash_axioms;

#[derive(Clone, Copy)]
struct CanonicalHost<'a>(&'a [u8]);

#[derive(Clone, Copy)]
struct CanonicalPrefix<'a>(&'a [u8]);

#[derive(Clone, Copy)]
struct UpstreamName<'a>(&'a String);

#[derive(Clone, Copy)]
struct ValidRule<'a> {
    host: CanonicalHost<'a>,
    prefix: CanonicalPrefix<'a>,
    upstream: UpstreamName<'a>,
    declaration_order: usize,
}

impl<'a> ValidRule<'a> {
    /// The rule that the view is one of.
    spec fn model(self) -> RuleModel {
        RuleModel {
            host: self.host.0@,
            path_prefix: self.prefix.0@,
            upstream: utf8(self.upstream.0@),
            declaration_order: self.declaration_order as int,
        }
    }
}

/// Select a route directly from validated, borrowed rule views.
pub fn match_route(
    authority: &EffectiveAuthority,
    target: &NormalizedTarget,
    routes: &[RouteRule],
) -> (result: Result<RouteMatch>)
    ensures
        outcome(result) == routed(authority@, target@, rules_of(routes@), true),
{
    if routes.len() > ROUTE_LIMIT {
        return Err(limit_exceeded("route_count", ROUTE_LIMIT, routes.len()));
    }
    let path: &[u8] = match routing_path_of(target) {
        Some(path) => path,
        None => return Err(invalid_route("invalid_target")),
    };
    let mut declaration_orders: HashSet<usize> = HashSet::new();
    let mut winner: Option<ValidRule<'_>> = None;
    let mut index: usize = 0;
    let ghost models = rules_of(routes@);
    let ghost host = authority@.host;
    while index < routes.len()
        invariant
            index <= routes@.len() <= ROUTE_LIMIT,
            models == rules_of(routes@),
            host == authority@.host,
            routing_path(target@) == Some(path@),
            rules_fault(models, 0, true) == rules_fault(models, index as int, true),
            forall|order: usize|
                #[trigger] declaration_orders@.contains(order) <==> order_taken(
                    models,
                    index as int,
                    order as int,
                ),
            match winner {
                Some(w) => best(models, index as int, host, path@) is Some && w.model()
                    == models[best(models, index as int, host, path@).unwrap()],
                None => best(models, index as int, host, path@) is None,
            },
        decreases routes@.len() - index,
    {
        let raw: &RouteRule = &routes[index];
        proof {
            assert(models[index as int] == raw@);
            lemma_order_taken_next(models, index as int);
            lemma_best(models, index as int, host, path@);
        }
        let rule = ValidRule::new(raw)?;
        if !declaration_orders.insert(rule.declaration_order) {
            return Err(invalid_route("duplicate_declaration_order"));
        }
        let host_matches: bool = same_ignoring_case(
            rule.host.0,
            authority.host.as_str().as_bytes(),
        );
        let path_matches: bool = rule.prefix.matches(path);
        if host_matches && path_matches {
            winner = match winner {
                None => Some(rule),
                Some(current) => if rule.precedes_rule(current) {
                    Some(rule)
                } else {
                    Some(current)
                },
            };
        }
        index += 1;
    }
    match winner {
        Some(rule) => Ok(
            RouteMatch {
                upstream: rule.upstream.0.clone(),
                declaration_order: rule.declaration_order,
            },
        ),
        None => Err(PolyguardError::NoRoute),
    }
}

impl<'a> ValidRule<'a> {
    fn new(raw: &'a RouteRule) -> (rule: Result<Self>)
        ensures
            match rule {
                Ok(r) => rule_fault(raw@, true) is None && r.model() == raw@,
                Err(e) => rule_fault(raw@, true) == Some(e@),
            },
    {
        let host = CanonicalHost::new(raw.host.as_str())?;
        let prefix = CanonicalPrefix::new(raw.path_prefix.as_str())?;
        let upstream = UpstreamName::new(&raw.upstream)?;
        Ok(ValidRule { host, prefix, upstream, declaration_order: raw.declaration_order })
    }

    fn precedes_rule(self, other: Self) -> (first: bool)
        ensures
            first == preferred(self.model(), other.model()),
    {
        let own: usize = self.prefix.0.len();
        let others: usize = other.prefix.0.len();
        own > others || (own == others && self.declaration_order < other.declaration_order)
    }
}

impl<'a> CanonicalHost<'a> {
    fn new(value: &'a str) -> (host: Result<Self>)
        ensures
            match host {
                Ok(h) => is_route_host(utf8(value@)) && h.0@ == utf8(value@),
                Err(e) => !is_route_host(utf8(value@)) && e@ == route_fault("invalid_host"@),
            },
    {
        let bytes: &'a [u8] = value.as_bytes();
        if is_canonical_host(bytes) {
            Ok(CanonicalHost(bytes))
        } else {
            Err(invalid_route("invalid_host"))
        }
    }
}

impl<'a> CanonicalPrefix<'a> {
    fn new(value: &'a str) -> (prefix: Result<Self>)
        ensures
            match prefix {
                Ok(p) => is_route_prefix(utf8(value@), true) && p.0@ == utf8(value@),
                Err(e) => !is_route_prefix(utf8(value@), true) && e@ == route_fault(
                    "invalid_path_prefix"@,
                ),
            },
    {
        let bytes: &'a [u8] = value.as_bytes();
        if bytes.len() == 0 || (bytes.len() > 1 && bytes[bytes.len() - 1] == '/' as u8)
            || bytes.len() > PATH_LIMIT || bytes[0] != '/' as u8 {
            return Err(invalid_route("invalid_path_prefix"));
        }
        let mut offset: usize = 0;
        while offset < bytes.len()
            invariant
                offset <= bytes@.len(),
                bytes@ == utf8(value@),
                is_canonical_path(bytes@, 0) == is_canonical_path(bytes@, offset as int),
            decreases bytes@.len() - offset,
        {
            match bytes[offset] {
                0x25 => match canonical_escape(bytes, offset) {
                    Some(next) => {
                        offset = next;
                    },
                    None => return Err(invalid_route("invalid_path_prefix")),
                },
                0x3f | 0x23 | 0x5c | 0..=32 | 127..=255 => {
                    return Err(invalid_route("invalid_path_prefix"));
                },
                _ => {
                    offset += 1;
                },
            }
        }
        if has_dots(bytes) {
            Err(invalid_route("invalid_path_prefix"))
        } else {
            Ok(CanonicalPrefix(bytes))
        }
    }

    fn matches(self, path: &[u8]) -> (matched: bool)
        ensures
            matched == covers(self.0@, path@),
    {
        prefix_covers_path(self.0, path)
    }
}

impl<'a> UpstreamName<'a> {
    fn new(value: &'a String) -> (name: Result<Self>)
        ensures
            match name {
                Ok(n) => is_upstream_name(utf8(value@)) && n.0@ == value@,
                Err(e) => !is_upstream_name(utf8(value@)) && e@ == route_fault("invalid_upstream"@),
            },
    {
        if is_upstream_text(value.as_str().as_bytes()) {
            Ok(UpstreamName(value))
        } else {
            Err(invalid_route("invalid_upstream"))
        }
    }
}

/// The end of the canonical escape at an offset.
fn canonical_escape(bytes: &[u8], offset: usize) -> (end: Option<usize>)
    requires
        offset < bytes@.len(),
    ensures
        match end {
            Some(e) => is_canonical_escape(bytes@, offset as int) && e == offset + 3,
            None => !is_canonical_escape(bytes@, offset as int),
        },
{
    if bytes.len() - offset > 2 && has_canonical_escape(bytes, offset) {
        Some(offset + 3)
    } else {
        None
    }
}

} // verus!
