//! Route choice by a pipeline that validates all rules and then filters them.

use std::collections::HashSet;
use vstd::prelude::*;
use crate::bytes::{ByteClass, any_byte_in, is_control, same_ignoring_case};
use crate::hex::hex_digit_value;
use crate::host::is_dns;
use crate::ip::{is_ipv6, is_ipv6_text, lemma_ipv6_bytes};
use crate::route::{
    PATH_LIMIT, ROUTE_LIMIT, best, covers, has_dots, has_duplicate, is_canonical_escape,
    is_canonical_path, is_path_byte, is_route_host, is_route_prefix, is_unreserved, is_upper_hex,
    is_upstream_name, is_upstream_text, lemma_order_taken_next, order_taken, prefix_covers_path,
    route_fault, routed_in_passes, routing_path, routing_path_of, rule_fault, single_fault,
};
use crate::text::utf8;
use crate::types::{
    EffectiveAuthority, Fault, MatchModel, NormalizedTarget, PolyguardError, Result, RouteMatch,
    RouteRule, RuleModel, invalid_route, limit_exceeded, outcome, rules_of,
};

verus! {

broadcast use vstd::std_specs::hash::group_hash_axioms;

#[derive(Clone, Copy)]
struct CheckedRule<'a> {
    host: &'a [u8],
    prefix: &'a [u8],
    upstream: &'a String,
    declaration_order: usize,
}

impl<'a> CheckedRule<'a> {
    spec fn model(self) -> RuleModel {
        RuleModel {
            host: self.host@,
            path_prefix: self.prefix@,
            upstream: utf8(self.upstream@),
            declaration_order: self.declaration_order as int,
        }
    }
}

struct CheckedInput<'a> {
    authority_host: &'a [u8],
    path: &'a [u8],
    rules: Vec<CheckedRule<'a>>,
}

/// Whether the checked rules are views of the rules.
spec fn views(checked: Seq<CheckedRule<'_>>, rules: Seq<RuleModel>) -> bool {
    checked.len() == rules.len() && forall|i: int|
        0 <= i < checked.len() ==> (#[trigger] checked[i]).model() == rules[i]
}

/// Select a route through a validate-then-filter rule pipeline.
pub fn match_route(
    authority: &EffectiveAuthority,
    target: &NormalizedTarget,
    routes: &[RouteRule],
) -> (result: Result<RouteMatch>)
    ensures
        outcome(result) == routed_in_passes(authority@, target@, rules_of(routes@), true),
{
    let checked = validate_boundary(authority, target, routes)?;
    let ghost models = rules_of(routes@);
    let ghost host = authority@.host;
    let mut winner: Option<usize> = None;
    let mut index: usize = 0;
    while index < checked.rules.len()
        invariant
            index <= checked.rules@.len(),
            views(checked.rules@, models),
            checked.authority_host@ == host,
            match winner {
                Some(w) => w < index && best(models, index as int, host, checked.path@) == Some(
                    w as int,
                ),
                None => best(models, index as int, host, checked.path@) is None,
            },
        decreases checked.rules@.len() - index,
    {
        let rule: CheckedRule<'_> = checked.rules[index];
        assert(rule.model() == models[index as int]);
        if same_ignoring_case(rule.host, checked.authority_host) && prefix_applies(
            rule.prefix,
            checked.path,
        ) {
            winner = match winner {
                None => Some(index),
                Some(current) => {
                    let incumbent: CheckedRule<'_> = checked.rules[current];
                    assert(incumbent.model() == models[current as int]);
                    if rule.prefix.len() > incumbent.prefix.len() || (rule.prefix.len()
                        == incumbent.prefix.len() && rule.declaration_order
                        < incumbent.declaration_order) {
                        Some(index)
                    } else {
                        Some(current)
                    }
                },
            };
        }
        index += 1;
    }
    match winner {
        Some(index) => {
            let rule: CheckedRule<'_> = checked.rules[index];
            assert(rule.model() == models[index as int]);
            Ok(
                RouteMatch {
                    upstream: rule.upstream.clone(),
                    declaration_order: rule.declaration_order,
                },
            )
        },
        None => Err(PolyguardError::NoRoute),
    }
}

fn validate_boundary<'a>(
    authority: &'a EffectiveAuthority,
    target: &'a NormalizedTarget,
    routes: &'a [RouteRule],
) -> (validated: Result<CheckedInput<'a>>)
    ensures
        match validated {
            Ok(input) => {
                &&& routes@.len() <= ROUTE_LIMIT
                &&& routing_path(target@) == Some(input.path@)
                &&& single_fault(rules_of(routes@), 0, true) is None
                &&& !has_duplicate(rules_of(routes@), 0)
                &&& views(input.rules@, rules_of(routes@))
                &&& input.authority_host@ == authority@.host
            },
            Err(e) => routed_in_passes(authority@, target@, rules_of(routes@), true) == Err::<
                MatchModel,
                Fault,
            >(e@),
        },
{
    if routes.len() > ROUTE_LIMIT {
        return Err(limit_exceeded("route_count", ROUTE_LIMIT, routes.len()));
    }
    let path: &'a [u8] = match routing_path_of(target) {
        Some(path) => path,
        None => return Err(invalid_route("invalid_target")),
    };
    let checked_rules: Vec<CheckedRule<'a>> = check_rules(routes)?;
    check_orders(&checked_rules, Ghost(rules_of(routes@)))?;
    Ok(
        CheckedInput {
            authority_host: authority.host.as_str().as_bytes(),
            path,
            rules: checked_rules,
        },
    )
}

fn check_rules<'a>(routes: &'a [RouteRule]) -> (checked: Result<Vec<CheckedRule<'a>>>)
    ensures
        match checked {
            Ok(v) => single_fault(rules_of(routes@), 0, true) is None && views(
                v@,
                rules_of(routes@),
            ),
            Err(e) => single_fault(rules_of(routes@), 0, true) == Some(e@),
        },
{
    let mut checked: Vec<CheckedRule<'a>> = Vec::new();
    let mut index: usize = 0;
    let ghost models = rules_of(routes@);
    while index < routes.len()
        invariant
            index <= routes@.len(),
            models == rules_of(routes@),
            single_fault(models, 0, true) == single_fault(models, index as int, true),
            checked@.len() == index,
            forall|i: int| 0 <= i < index ==> (#[trigger] checked@[i]).model() == models[i],
        decreases routes@.len() - index,
    {
        assert(models[index as int] == routes@[index as int]@);
        let rule = check_rule(&routes[index])?;
        checked.push(rule);
        index += 1;
    }
    Ok(checked)
}

fn check_orders(checked: &Vec<CheckedRule<'_>>, Ghost(models): Ghost<Seq<RuleModel>>) -> (distinct:
    Result<()>)
    requires
        views(checked@, models),
    ensures
        match distinct {
            Ok(_) => !has_duplicate(models, 0),
            Err(e) => has_duplicate(models, 0) && e@ == route_fault("duplicate_declaration_order"@),
        },
{
    let mut seen: HashSet<usize> = HashSet::new();
    let mut index: usize = 0;
    while index < checked.len()
        invariant
            index <= checked@.len(),
            views(checked@, models),
            forall|order: usize|
                #[trigger] seen@.contains(order) <==> order_taken(
                    models,
                    index as int,
                    order as int,
                ),
            forall|k: int|
                0 <= k < index ==> !order_taken(models, k, (#[trigger] models[k]).declaration_order),
        decreases checked@.len() - index,
    {
        proof {
            assert(checked@[index as int].model() == models[index as int]);
            lemma_order_taken_next(models, index as int);
        }
        if !seen.insert(checked[index].declaration_order) {
            assert(order_taken(models, index as int, models[index as int].declaration_order));
            return Err(invalid_route("duplicate_declaration_order"));
        }
        index += 1;
    }
    Ok(())
}

fn check_rule<'a>(rule: &'a RouteRule) -> (checked: Result<CheckedRule<'a>>)
    ensures
        match checked {
            Ok(c) => rule_fault(rule@, true) is None && c.model() == rule@,
            Err(e) => rule_fault(rule@, true) == Some(e@),
        },
{
    validate_rule_host(rule)?;
    validate_rule_prefix(rule)?;
    validate_rule_upstream(rule)?;
    Ok(
        CheckedRule {
            host: rule.host.as_str().as_bytes(),
            prefix: rule.path_prefix.as_str().as_bytes(),
            upstream: &rule.upstream,
            declaration_order: rule.declaration_order,
        },
    )
}

fn validate_rule_host(rule: &RouteRule) -> (valid: Result<()>)
    ensures
        match valid {
            Ok(_) => is_route_host(rule@.host),
            Err(e) => !is_route_host(rule@.host) && e@ == route_fault("invalid_host"@),
        },
{
    let host: &[u8] = rule.host.as_str().as_bytes();
    if host.len() >= 2 && host[0] == '[' as u8 && host[host.len() - 1] == ']' as u8 {
        let address: &[u8] = &host[1..host.len() - 1];
        return if address.len() > 0 && !any_byte_in(address, ByteClass::Upper) && is_ipv6_text(
            address,
        ) {
            Ok(())
        } else {
            assert(address@.len() == 0 ==> !is_ipv6(address@)) by {
                if is_ipv6(address@) {
                    lemma_ipv6_bytes(address@);
                }
            }
            Err(invalid_route("invalid_host"))
        };
    }
    if is_dns(host) && !any_byte_in(host, ByteClass::Upper) {
        Ok(())
    } else {
        Err(invalid_route("invalid_host"))
    }
}

fn validate_rule_prefix(rule: &RouteRule) -> (valid: Result<()>)
    ensures
        match valid {
            Ok(_) => is_route_prefix(rule@.path_prefix, true),
            Err(e) => !is_route_prefix(rule@.path_prefix, true) && e@ == route_fault(
                "invalid_path_prefix"@,
            ),
        },
{
    let prefix: &[u8] = rule.path_prefix.as_str().as_bytes();
    let shape_is_canonical: bool = prefix.len() >= 1 && prefix.len() <= PATH_LIMIT && prefix[0]
        == '/' as u8 && (prefix.len() == 1 || prefix[prefix.len() - 1] != '/' as u8);
    if !shape_is_canonical {
        return Err(invalid_route("invalid_path_prefix"));
    }
    validate_path_bytes(prefix)?;
    if has_dots(prefix) {
        return Err(invalid_route("invalid_path_prefix"));
    }
    Ok(())
}

fn validate_path_bytes(bytes: &[u8]) -> (valid: Result<()>)
    ensures
        match valid {
            Ok(_) => is_canonical_path(bytes@, 0),
            Err(e) => !is_canonical_path(bytes@, 0) && e@ == route_fault("invalid_path_prefix"@),
        },
{
    let mut cursor: usize = 0;
    while cursor < bytes.len()
        invariant
            cursor <= bytes@.len(),
            is_canonical_path(bytes@, 0) == is_canonical_path(bytes@, cursor as int),
        decreases bytes@.len() - cursor,
    {
        let byte: u8 = bytes[cursor];
        if byte == '%' as u8 {
            cursor = validate_escape(bytes, cursor)?;
        } else if is_path_byte(byte) {
            cursor += 1;
        } else {
            return Err(invalid_route("invalid_path_prefix"));
        }
    }
    Ok(())
}

fn validate_escape(bytes: &[u8], cursor: usize) -> (end: Result<usize>)
    requires
        cursor < bytes@.len(),
    ensures
        match end {
            Ok(e) => is_canonical_escape(bytes@, cursor as int) && e == cursor + 3,
            Err(e) => !is_canonical_escape(bytes@, cursor as int) && e@ == route_fault(
                "invalid_path_prefix"@,
            ),
        },
{
    if bytes.len() - cursor < 3 {
        return Err(invalid_route("invalid_path_prefix"));
    }
    let high: u8 = bytes[cursor + 1];
    let low: u8 = bytes[cursor + 2];
    if !is_upper_hex(high) || !is_upper_hex(low) {
        return Err(invalid_route("invalid_path_prefix"));
    }
    let decoded: u8 = hex_digit_value(high) * 16 + hex_digit_value(low);
    if is_control(decoded) || decoded == '\\' as u8 || is_unreserved(decoded) {
        return Err(invalid_route("invalid_path_prefix"));
    }
    Ok(cursor + 3)
}

fn validate_rule_upstream(rule: &RouteRule) -> (valid: Result<()>)
    ensures
        match valid {
            Ok(_) => is_upstream_name(rule@.upstream),
            Err(e) => !is_upstream_name(rule@.upstream) && e@ == route_fault("invalid_upstream"@),
        },
{
    if is_upstream_text(rule.upstream.as_str().as_bytes()) {
        Ok(())
    } else {
        Err(invalid_route("invalid_upstream"))
    }
}

fn prefix_applies(prefix: &[u8], path: &[u8]) -> (applied: bool)
    ensures
        applied == covers(prefix@, path@),
{
    prefix_covers_path(prefix, path)
}

} // verus!
