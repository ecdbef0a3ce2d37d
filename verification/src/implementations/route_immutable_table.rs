//! Route choice from a table of validated rules.

use std::collections::HashSet;
use vstd::prelude::*;
use crate::bytes::same_ignoring_case;
use crate::route::{
    ROUTE_LIMIT, best, chosen, covers, is_canonical_host, is_canonical_prefix, is_route_host,
    is_route_prefix, is_upstream_name, is_upstream_text, lemma_order_taken_next, order_taken,
    prefix_covers_path, route_fault, routed, routing_path_of, rule_fault, rules_fault,
};
use crate::text::utf8;
use crate::types::{
    EffectiveAuthority, NormalizedTarget, PolyguardError, Result, RouteMatch, RouteRule,
    RuleModel, invalid_route, limit_exceeded, outcome, rules_of,
};

verus! {

broadcast use vstd::std_specs::hash::group_hash_axioms;

/// What a rule has to meet, in the order in which it is checked.
#[derive(Clone, Copy, PartialEq, Eq, Structural)]
enum RuleRequirement {
    Host,
    PathPrefix,
    Upstream,
}

impl RuleRequirement {
    spec fn accepts_model(self, rule: RuleModel) -> bool {
        match self {
            RuleRequirement::Host => is_route_host(rule.host),
            RuleRequirement::PathPrefix => is_route_prefix(rule.path_prefix, false),
            RuleRequirement::Upstream => is_upstream_name(rule.upstream),
        }
    }

    fn accepts(self, rule: &RouteRule) -> (accepted: bool)
        ensures
            accepted == self.accepts_model(rule@),
    {
        match self {
            RuleRequirement::Host => is_canonical_host(rule.host.as_str().as_bytes()),
            RuleRequirement::PathPrefix => is_canonical_prefix(
                rule.path_prefix.as_str().as_bytes(),
                false,
            ),
            RuleRequirement::Upstream => is_upstream_text(rule.upstream.as_str().as_bytes()),
        }
    }

    fn failure(self) -> (error: PolyguardError)
        ensures
            error@ == route_fault(
                match self {
                    RuleRequirement::Host => "invalid_host"@,
                    RuleRequirement::PathPrefix => "invalid_path_prefix"@,
                    RuleRequirement::Upstream => "invalid_upstream"@,
                },
            ),
    {
        match self {
            RuleRequirement::Host => invalid_route("invalid_host"),
            RuleRequirement::PathPrefix => invalid_route("invalid_path_prefix"),
            RuleRequirement::Upstream => invalid_route("invalid_upstream"),
        }
    }
}

#[derive(Clone, Copy)]
struct ValidRule<'a> {
    host: &'a [u8],
    prefix: &'a [u8],
    upstream: &'a String,
    order: usize,
}

impl<'a> ValidRule<'a> {
    spec fn model(self) -> RuleModel {
        RuleModel {
            host: self.host@,
            path_prefix: self.prefix@,
            upstream: utf8(self.upstream@),
            declaration_order: self.order as int,
        }
    }
}

pub fn match_route(
    authority: &EffectiveAuthority,
    target: &NormalizedTarget,
    routes: &[RouteRule],
) -> (result: Result<RouteMatch>)
    ensures
        outcome(result) == routed(authority@, target@, rules_of(routes@), false),
{
    if routes.len() > ROUTE_LIMIT {
        return Err(limit_exceeded("route_count", ROUTE_LIMIT, routes.len()));
    }
    let path: &[u8] = match routing_path_of(target) {
        Some(path) => path,
        None => return Err(invalid_route("invalid_target")),
    };
    let valid_rules: Vec<ValidRule<'_>> = validate_rules(routes)?;
    select(&valid_rules, authority, path, Ghost(rules_of(routes@)))
}

fn validate_rules<'a>(routes: &'a [RouteRule]) -> (validated: Result<Vec<ValidRule<'a>>>)
    ensures
        match validated {
            Ok(v) => {
                &&& rules_fault(rules_of(routes@), 0, false) is None
                &&& v@.len() == routes@.len()
                &&& forall|i: int|
                    0 <= i < v@.len() ==> (#[trigger] v@[i]).model() == rules_of(routes@)[i]
            },
            Err(e) => rules_fault(rules_of(routes@), 0, false) == Some(e@),
        },
{
    let mut seen_orders: HashSet<usize> = HashSet::new();
    let mut valid_rules: Vec<ValidRule<'a>> = Vec::new();
    let mut index: usize = 0;
    let ghost models = rules_of(routes@);
    while index < routes.len()
        invariant
            index <= routes@.len(),
            models == rules_of(routes@),
            rules_fault(models, 0, false) == rules_fault(models, index as int, false),
            valid_rules@.len() == index,
            forall|i: int|
                0 <= i < index ==> (#[trigger] valid_rules@[i]).model() == models[i],
            forall|order: usize|
                #[trigger] seen_orders@.contains(order) <==> order_taken(
                    models,
                    index as int,
                    order as int,
                ),
        decreases routes@.len() - index,
    {
        let raw: &'a RouteRule = &routes[index];
        proof {
            assert(models[index as int] == raw@);
            lemma_order_taken_next(models, index as int);
        }
        let rule = validate_rule(raw, &mut seen_orders)?;
        valid_rules.push(rule);
        index += 1;
    }
    Ok(valid_rules)
}

fn validate_rule<'a>(rule: &'a RouteRule, seen_orders: &mut HashSet<usize>) -> (validated: Result<
    ValidRule<'a>,
>)
    ensures
        match validated {
            Ok(v) => {
                &&& rule_fault(rule@, false) is None
                &&& v.model() == rule@
                &&& !old(seen_orders)@.contains(rule.declaration_order)
                &&& final(seen_orders)@ == old(seen_orders)@.insert(rule.declaration_order)
            },
            Err(e) => match rule_fault(rule@, false) {
                Some(fault) => e@ == fault,
                None => old(seen_orders)@.contains(rule.declaration_order) && e@ == route_fault(
                    "duplicate_declaration_order"@,
                ),
            },
        },
{
    let requirements: [RuleRequirement; 3] = [
        RuleRequirement::Host,
        RuleRequirement::PathPrefix,
        RuleRequirement::Upstream,
    ];
    let mut index: usize = 0;
    while index < 3
        invariant
            index <= 3,
            requirements@ == seq![
                RuleRequirement::Host,
                RuleRequirement::PathPrefix,
                RuleRequirement::Upstream,
            ],
            *seen_orders == *old(seen_orders),
            forall|i: int| 0 <= i < index ==> (#[trigger] requirements@[i]).accepts_model(rule@),
        decreases 3 - index,
    {
        let requirement: RuleRequirement = requirements[index];
        if !requirement.accepts(rule) {
            assert(index > 0 ==> requirements@[0].accepts_model(rule@));
            assert(index > 1 ==> requirements@[1].accepts_model(rule@));
            return Err(requirement.failure());
        }
        index += 1;
    }
    assert(requirements@[0].accepts_model(rule@));
    assert(requirements@[1].accepts_model(rule@));
    assert(requirements@[2].accepts_model(rule@));
    if !seen_orders.insert(rule.declaration_order) {
        return Err(invalid_route("duplicate_declaration_order"));
    }
    Ok(
        ValidRule {
            host: rule.host.as_str().as_bytes(),
            prefix: rule.path_prefix.as_str().as_bytes(),
            upstream: &rule.upstream,
            order: rule.declaration_order,
        },
    )
}

/// The route by the rule with the greatest key among those that apply.
fn select(
    rules: &Vec<ValidRule<'_>>,
    authority: &EffectiveAuthority,
    path: &[u8],
    Ghost(models): Ghost<Seq<RuleModel>>,
) -> (result: Result<RouteMatch>)
    requires
        rules@.len() == models.len(),
        forall|i: int| 0 <= i < rules@.len() ==> (#[trigger] rules@[i]).model() == models[i],
    ensures
        outcome(result) == chosen(models, authority@.host, path@),
{
    let mut winner: Option<usize> = None;
    let mut index: usize = 0;
    let ghost host = authority@.host;
    while index < rules.len()
        invariant
            index <= rules@.len(),
            host == authority@.host,
            rules@.len() == models.len(),
            forall|i: int| 0 <= i < rules@.len() ==> (#[trigger] rules@[i]).model() == models[i],
            match winner {
                Some(w) => w < index && best(models, index as int, host, path@) == Some(w as int),
                None => best(models, index as int, host, path@) is None,
            },
        decreases rules@.len() - index,
    {
        let rule: ValidRule<'_> = rules[index];
        assert(rule.model() == models[index as int]);
        if same_ignoring_case(rule.host, authority.host.as_str().as_bytes()) && prefix_covers(
            rule.prefix,
            path,
        ) {
            winner = match winner {
                None => Some(index),
                Some(current) => {
                    let incumbent: ValidRule<'_> = rules[current];
                    assert(incumbent.model() == models[current as int]);
                    if rule.prefix.len() > incumbent.prefix.len() || (rule.prefix.len()
                        == incumbent.prefix.len() && rule.order < incumbent.order) {
                        Some(index)
                    } else {
                        Some(current)
                    }
                },
            };
        }
        index += 1;
    }
    match winner {
        Some(index) => {
            let rule: ValidRule<'_> = rules[index];
            assert(rule.model() == models[index as int]);
            Ok(RouteMatch { upstream: rule.upstream.clone(), declaration_order: rule.order })
        },
        None => Err(PolyguardError::NoRoute),
    }
}

fn prefix_covers(prefix: &[u8], path: &[u8]) -> (covered: bool)
    ensures
        covered == covers(prefix@, path@),
{
    prefix_covers_path(prefix, path)
}

} // verus!
