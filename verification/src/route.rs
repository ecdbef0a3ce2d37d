//! Choosing the route of a request.

use vstd::prelude::*;
use crate::bytes::{
    ByteClass, any_byte_in, any_in, is_alnum, is_control, is_digit, is_visible, lowered, split,
    split_on,
};
use crate::hex::hex_digit_value;
use crate::host::{is_dns, is_dns_name};
use crate::ip::{is_ipv6, is_ipv6_text};
use crate::text::same_bytes;
use crate::types::{
    AuthorityModel, Fault, MatchModel, NormalizedTarget, RuleModel, TargetForm, TargetModel,
    Verdict,
};

verus! {

pub const ROUTE_LIMIT: usize = 256;

pub const PATH_LIMIT: usize = 8192;

pub const UPSTREAM_LIMIT: usize = 64;

/// Whether a byte string is a canonical host: a DNS name or a bracketed IPv6 address, in lower
/// case.
pub open spec fn is_route_host(s: Seq<u8>) -> bool {
    if s.len() >= 2 && s[0] == '[' as u8 && s.last() == ']' as u8 {
        is_ipv6(s.subrange(1, s.len() - 1)) && !any_in(
            s.subrange(1, s.len() - 1),
            ByteClass::Upper,
        )
    } else {
        is_dns_name(s) && !any_in(s, ByteClass::Upper)
    }
}

/// An upper-case hexadecimal digit.
#[verifier::allow_in_spec]
pub fn is_upper_hex(b: u8) -> bool
    returns
        is_digit(b) || 'A' as u8 <= b <= 'F' as u8,
{
    is_digit(b) || ('A' as u8 <= b && b <= 'F' as u8)
}

/// A byte that a URI never needs to escape.
#[verifier::allow_in_spec]
pub fn is_unreserved(b: u8) -> bool
    returns
        is_alnum(b) || b == '-' as u8 || b == '.' as u8 || b == '_' as u8 || b == '~' as u8,
{
    is_alnum(b) || b == '-' as u8 || b == '.' as u8 || b == '_' as u8 || b == '~' as u8
}

/// The byte that two hexadecimal digits stand for.
pub open spec fn decoded_byte(high: u8, low: u8) -> u8 {
    (hex_digit_value(high) * 16 + hex_digit_value(low)) as u8
}

/// Whether a canonical escape stands at `i`: two upper-case digits for a byte that has to be
/// escaped, but for none that is refused.
pub open spec fn is_canonical_escape(s: Seq<u8>, i: int) -> bool {
    &&& i + 2 < s.len()
    &&& is_upper_hex(s[i + 1])
    &&& is_upper_hex(s[i + 2])
    &&& !is_control(decoded_byte(s[i + 1], s[i + 2]))
    &&& decoded_byte(s[i + 1], s[i + 2]) != '\\' as u8
    &&& !is_unreserved(decoded_byte(s[i + 1], s[i + 2]))
}

/// A byte that a path may hold as it is.
#[verifier::allow_in_spec]
pub fn is_path_byte(b: u8) -> bool
    returns
        is_visible(b) && b != '?' as u8 && b != '#' as u8 && b != '\\' as u8,
{
    is_visible(b) && b != '?' as u8 && b != '#' as u8 && b != '\\' as u8
}

/// Whether the path from `i` on is made of path bytes and canonical escapes.
pub open spec fn is_canonical_path(s: Seq<u8>, i: int) -> bool
    decreases s.len() - i,
{
    if i >= s.len() {
        true
    } else if s[i] == '%' as u8 {
        is_canonical_escape(s, i) && is_canonical_path(s, i + 3)
    } else {
        is_path_byte(s[i]) && is_canonical_path(s, i + 1)
    }
}

/// Whether a segment of a path stands for the current or the parent directory.
pub open spec fn is_dot_segment(s: Seq<u8>) -> bool {
    s == seq!['.' as u8] || s == seq!['.' as u8, '.' as u8]
}

pub open spec fn has_dot_segment(s: Seq<u8>) -> bool {
    exists|i: int|
        0 <= i < split(s, '/' as u8).len() && is_dot_segment(#[trigger] split(s, '/' as u8)[i])
}

/// Whether a byte string is a canonical path prefix. Prefixes longer than the path limit are
/// refused only where they are bounded.
pub open spec fn is_route_prefix(s: Seq<u8>, bounded: bool) -> bool {
    &&& s.len() >= 1
    &&& bounded ==> s.len() <= PATH_LIMIT
    &&& s[0] == '/' as u8
    &&& s.len() > 1 ==> s.last() != '/' as u8
    &&& is_canonical_path(s, 0)
    &&& !has_dot_segment(s)
}

/// A byte of an upstream's name.
#[verifier::allow_in_spec]
pub fn is_upstream_byte(b: u8) -> bool
    returns
        is_alnum(b) || b == '_' as u8 || b == '.' as u8 || b == '-' as u8,
{
    is_alnum(b) || b == '_' as u8 || b == '.' as u8 || b == '-' as u8
}

pub open spec fn is_upstream_name(s: Seq<u8>) -> bool {
    1 <= s.len() <= UPSTREAM_LIMIT && forall|i: int|
        0 <= i < s.len() ==> is_upstream_byte(#[trigger] s[i])
}

pub open spec fn route_fault(reason: Seq<char>) -> Fault {
    Fault::InvalidRoute { reason }
}

/// What is wrong with a rule.
pub open spec fn rule_fault(rule: RuleModel, bounded: bool) -> Option<Fault> {
    if !is_route_host(rule.host) {
        Some(route_fault("invalid_host"@))
    } else if !is_route_prefix(rule.path_prefix, bounded) {
        Some(route_fault("invalid_path_prefix"@))
    } else if !is_upstream_name(rule.upstream) {
        Some(route_fault("invalid_upstream"@))
    } else {
        None
    }
}

/// Whether one of the first `upto` rules has the declaration order.
pub open spec fn order_taken(rules: Seq<RuleModel>, upto: int, order: int) -> bool {
    exists|j: int| 0 <= j < upto && (#[trigger] rules[j]).declaration_order == order
}

/// What is wrong with the first faulty rule from `i` on, where each rule is checked by itself and
/// then against those before it.
pub open spec fn rules_fault(rules: Seq<RuleModel>, i: int, bounded: bool) -> Option<Fault>
    decreases rules.len() - i,
{
    if i >= rules.len() {
        None
    } else if rule_fault(rules[i], bounded) is Some {
        rule_fault(rules[i], bounded)
    } else if order_taken(rules, i, rules[i].declaration_order) {
        Some(route_fault("duplicate_declaration_order"@))
    } else {
        rules_fault(rules, i + 1, bounded)
    }
}

/// What is wrong with the first rule, from `i` on, that is faulty by itself.
pub open spec fn single_fault(rules: Seq<RuleModel>, i: int, bounded: bool) -> Option<Fault>
    decreases rules.len() - i,
{
    if i >= rules.len() {
        None
    } else if rule_fault(rules[i], bounded) is Some {
        rule_fault(rules[i], bounded)
    } else {
        single_fault(rules, i + 1, bounded)
    }
}

/// Whether two rules, the second from `i` on, have the same declaration order.
pub open spec fn has_duplicate(rules: Seq<RuleModel>, i: int) -> bool {
    exists|k: int|
        i <= k < rules.len() && order_taken(rules, k, (#[trigger] rules[k]).declaration_order)
}

/// Whether a prefix covers a path: the path is the prefix, or goes on with a new segment.
pub open spec fn covers(prefix: Seq<u8>, path: Seq<u8>) -> bool {
    ||| prefix == seq!['/' as u8]
    ||| prefix.len() <= path.len() && path.take(prefix.len() as int) == prefix && (prefix.len()
        == path.len() || path[prefix.len() as int] == '/' as u8)
}

/// Whether a rule applies to a request. Hosts are compared without regard to case.
pub open spec fn applies(rule: RuleModel, host: Seq<u8>, path: Seq<u8>) -> bool {
    lowered(rule.host) == lowered(host) && covers(rule.path_prefix, path)
}

/// Whether a rule is preferred to another: the longer prefix, then the earlier declaration.
pub open spec fn preferred(a: RuleModel, b: RuleModel) -> bool {
    a.path_prefix.len() > b.path_prefix.len() || (a.path_prefix.len() == b.path_prefix.len()
        && a.declaration_order < b.declaration_order)
}

/// The preferred one of the first `upto` rules that apply.
pub open spec fn best(rules: Seq<RuleModel>, upto: int, host: Seq<u8>, path: Seq<u8>) -> Option<int>
    decreases upto,
{
    if upto <= 0 {
        None
    } else {
        let before = best(rules, upto - 1, host, path);
        if applies(rules[upto - 1], host, path) && (before is None || preferred(
            rules[upto - 1],
            rules[before.unwrap()],
        )) {
            Some(upto - 1)
        } else {
            before
        }
    }
}

/// The path that a target is routed by.
pub open spec fn routing_path(target: TargetModel) -> Option<Seq<u8>> {
    if (target.form is Origin || target.form is Absolute) && target.routing_path.len() > 0
        && target.routing_path[0] == '/' as u8 {
        Some(target.routing_path)
    } else {
        None
    }
}

/// The route among rules that are in order.
pub open spec fn chosen(rules: Seq<RuleModel>, host: Seq<u8>, path: Seq<u8>) -> Verdict<
    MatchModel,
> {
    match best(rules, rules.len() as int, host, path) {
        Some(i) => Ok(
            MatchModel {
                upstream: rules[i].upstream,
                declaration_order: rules[i].declaration_order,
            },
        ),
        None => Err(Fault::NoRoute),
    }
}

pub open spec fn too_many_routes(count: int) -> Fault {
    Fault::LimitExceeded { limit: "route_count"@, max: ROUTE_LIMIT as int, actual: count }
}

/// The route of a request, where the rules are checked one after the other.
pub open spec fn routed(
    authority: AuthorityModel,
    target: TargetModel,
    rules: Seq<RuleModel>,
    bounded: bool,
) -> Verdict<MatchModel> {
    if rules.len() > ROUTE_LIMIT {
        Err(too_many_routes(rules.len() as int))
    } else {
        match routing_path(target) {
            None => Err(route_fault("invalid_target"@)),
            Some(path) => match rules_fault(rules, 0, bounded) {
                Some(fault) => Err(fault),
                None => chosen(rules, authority.host, path),
            },
        }
    }
}

/// The route of a request, where all rules are checked by themselves before any two of them are
/// compared.
pub open spec fn routed_in_passes(
    authority: AuthorityModel,
    target: TargetModel,
    rules: Seq<RuleModel>,
    bounded: bool,
) -> Verdict<MatchModel> {
    if rules.len() > ROUTE_LIMIT {
        Err(too_many_routes(rules.len() as int))
    } else {
        match routing_path(target) {
            None => Err(route_fault("invalid_target"@)),
            Some(path) => match single_fault(rules, 0, bounded) {
                Some(fault) => Err(fault),
                None => if has_duplicate(rules, 0) {
                    Err(route_fault("duplicate_declaration_order"@))
                } else {
                    chosen(rules, authority.host, path)
                },
            },
        }
    }
}

/// What makes a rule the best of the first `upto`: it applies, and none that applies is preferred
/// to it.
pub proof fn lemma_best(rules: Seq<RuleModel>, upto: int, host: Seq<u8>, path: Seq<u8>)
    requires
        0 <= upto <= rules.len(),
    ensures
        match best(rules, upto, host, path) {
            Some(i) => {
                &&& 0 <= i < upto
                &&& applies(rules[i], host, path)
                &&& forall|j: int|
                    0 <= j < upto && applies(#[trigger] rules[j], host, path) ==> !preferred(
                        rules[j],
                        rules[i],
                    )
            },
            None => forall|j: int| 0 <= j < upto ==> !applies(#[trigger] rules[j], host, path),
        },
    decreases upto,
{
    if upto > 0 {
        lemma_best(rules, upto - 1, host, path);
    }
}

/// Rules without a fault have distinct declaration orders.
pub proof fn lemma_orders_distinct(rules: Seq<RuleModel>, i: int, bounded: bool)
    requires
        0 <= i,
        rules_fault(rules, i, bounded) is None,
    ensures
        forall|j: int, k: int|
            0 <= j < k < rules.len() && i <= k ==> (#[trigger] rules[j]).declaration_order != (
            #[trigger] rules[k]).declaration_order,
        forall|k: int| i <= k < rules.len() ==> rule_fault(#[trigger] rules[k], bounded) is None,
    decreases rules.len() - i,
{
    if i < rules.len() {
        lemma_orders_distinct(rules, i + 1, bounded);
        assert forall|j: int, k: int| 0 <= j < k < rules.len() && i <= k implies (
        #[trigger] rules[j]).declaration_order != (#[trigger] rules[k]).declaration_order by {
            if k == i {
                assert(!order_taken(rules, i, rules[i].declaration_order));
            }
        }
    }
}

/// A chosen route is the one: of all rules that apply it has the longest prefix, and of those with
/// that prefix length the earliest declaration. Both orders of checking choose it.
pub proof fn lemma_route_is_preferred(
    authority: AuthorityModel,
    target: TargetModel,
    rules: Seq<RuleModel>,
    bounded: bool,
    j: int,
)
    requires
        routed(authority, target, rules, bounded) is Ok,
        0 <= j < rules.len(),
        applies(rules[j], authority.host, target.routing_path),
    ensures
        exists|i: int|
            0 <= i < rules.len() && routed(authority, target, rules, bounded)->Ok_0 == (MatchModel {
                upstream: (#[trigger] rules[i]).upstream,
                declaration_order: rules[i].declaration_order,
            }) && applies(rules[i], authority.host, target.routing_path) && (i == j || preferred(
                rules[i],
                rules[j],
            )),
        routed_in_passes(authority, target, rules, bounded) == routed(
            authority,
            target,
            rules,
            bounded,
        ),
{
    lemma_passes_agree(authority, target, rules, bounded);
    let host = authority.host;
    let path = target.routing_path;
    lemma_best(rules, rules.len() as int, host, path);
    lemma_orders_distinct(rules, 0, bounded);
    let i = best(rules, rules.len() as int, host, path).unwrap();
    if i < j {
        assert(rules[i].declaration_order != rules[j].declaration_order);
    } else if j < i {
        assert(rules[j].declaration_order != rules[i].declaration_order);
    }
    assert(applies(rules[i], host, path));
}

/// Both orders of checking accept the same rules and choose the same route.
pub proof fn lemma_passes_agree(
    authority: AuthorityModel,
    target: TargetModel,
    rules: Seq<RuleModel>,
    bounded: bool,
)
    ensures
        routed(authority, target, rules, bounded) is Ok <==> routed_in_passes(
            authority,
            target,
            rules,
            bounded,
        ) is Ok,
        routed(authority, target, rules, bounded) is Ok ==> routed(
            authority,
            target,
            rules,
            bounded,
        ) == routed_in_passes(authority, target, rules, bounded),
{
    lemma_faults_agree(rules, 0, bounded);
}

/// Both orders of checking find a fault in the same rules.
pub proof fn lemma_faults_agree(rules: Seq<RuleModel>, i: int, bounded: bool)
    requires
        0 <= i,
    ensures
        rules_fault(rules, i, bounded) is None <==> single_fault(rules, i, bounded) is None
            && !has_duplicate(rules, i),
    decreases rules.len() - i,
{
    if i < rules.len() {
        lemma_faults_agree(rules, i + 1, bounded);
        if has_duplicate(rules, i + 1) {
            let k = choose|k: int|
                i + 1 <= k < rules.len() && order_taken(
                    rules,
                    k,
                    (#[trigger] rules[k]).declaration_order,
                );
            assert(i <= k < rules.len() && order_taken(rules, k, rules[k].declaration_order));
        }
        if order_taken(rules, i, rules[i].declaration_order) {
            assert(has_duplicate(rules, i));
        }
    }
}

/// Where every prefix is within the path limit, bounding prefixes makes no difference.
pub proof fn lemma_bound_is_only_difference(
    authority: AuthorityModel,
    target: TargetModel,
    rules: Seq<RuleModel>,
)
    requires
        forall|i: int| 0 <= i < rules.len() ==> (#[trigger] rules[i]).path_prefix.len() <= PATH_LIMIT,
    ensures
        routed(authority, target, rules, true) == routed(authority, target, rules, false),
        routed_in_passes(authority, target, rules, true) == routed_in_passes(
            authority,
            target,
            rules,
            false,
        ),
{
    lemma_bounded_fault(rules, 0);
}

proof fn lemma_bounded_fault(rules: Seq<RuleModel>, i: int)
    requires
        0 <= i,
        forall|k: int| 0 <= k < rules.len() ==> (#[trigger] rules[k]).path_prefix.len() <= PATH_LIMIT,
    ensures
        rules_fault(rules, i, true) == rules_fault(rules, i, false),
        single_fault(rules, i, true) == single_fault(rules, i, false),
    decreases rules.len() - i,
{
    if i < rules.len() {
        assert(rules[i].path_prefix.len() <= PATH_LIMIT);
        lemma_bounded_fault(rules, i + 1);
    }
}

/// Rules without a fault have none in another order either.
proof fn lemma_faultless_in_any_order(
    rules: Seq<RuleModel>,
    other: Seq<RuleModel>,
    i: int,
    bounded: bool,
)
    requires
        0 <= i,
        rules_fault(rules, 0, bounded) is None,
        rules.to_multiset() == other.to_multiset(),
    ensures
        other.len() == rules.len(),
        rules_fault(other, i, bounded) is None,
        forall|rule: RuleModel| rules.contains(rule) <==> other.contains(rule),
    decreases other.len() - i,
{
    lemma_orders_distinct(rules, 0, bounded);
    rules.to_multiset_ensures();
    other.to_multiset_ensures();
    assert forall|rule: RuleModel| rules.contains(rule) <==> other.contains(rule) by {
        assert(rules.contains(rule) <==> rules.to_multiset().count(rule) > 0);
        assert(other.contains(rule) <==> other.to_multiset().count(rule) > 0);
    }
    assert(rules.no_duplicates());
    rules.lemma_multiset_has_no_duplicates();
    other.lemma_multiset_has_no_duplicates_conv();
    if i < other.len() {
        lemma_faultless_in_any_order(rules, other, i + 1, bounded);
        assert(other.contains(other[i]));
        let a = choose|a: int| 0 <= a < rules.len() && rules[a] == other[i];
        assert(rule_fault(rules[a], bounded) is None);
        if order_taken(other, i, other[i].declaration_order) {
            let j = choose|j: int|
                0 <= j < i && (#[trigger] other[j]).declaration_order == other[i].declaration_order;
            assert(other.contains(other[j]));
            let b = choose|b: int| 0 <= b < rules.len() && rules[b] == other[j];
            assert(rules[a].declaration_order == rules[b].declaration_order);
        }
    }
}

/// The route of a request depends neither on the order in which the rules are given, nor on the
/// port, nor on the query: rules that are accepted are accepted in every order, and choose the same
/// route, or none.
pub proof fn lemma_only_host_and_path_matter(
    authority: AuthorityModel,
    target: TargetModel,
    rules: Seq<RuleModel>,
    other_authority: AuthorityModel,
    other_target: TargetModel,
    other_rules: Seq<RuleModel>,
    bounded: bool,
)
    requires
        routed(authority, target, rules, bounded) is Ok || routed(authority, target, rules, bounded)
            == Err::<MatchModel, Fault>(Fault::NoRoute),
        other_authority.host == authority.host,
        other_target.form == target.form,
        other_target.routing_path == target.routing_path,
        other_rules.to_multiset() == rules.to_multiset(),
    ensures
        routed(other_authority, other_target, other_rules, bounded) == routed(
            authority,
            target,
            rules,
            bounded,
        ),
        routed_in_passes(other_authority, other_target, other_rules, bounded) == routed(
            authority,
            target,
            rules,
            bounded,
        ),
{
    let host = authority.host;
    let path = target.routing_path;
    let count = rules.len() as int;
    lemma_rules_accepted(authority, target, rules, bounded);
    lemma_faultless_in_any_order(rules, other_rules, 0, bounded);
    lemma_faults_agree(other_rules, 0, bounded);
    lemma_orders_distinct(rules, 0, bounded);
    lemma_best(rules, count, host, path);
    lemma_best(other_rules, count, host, path);
    if let Some(i) = best(rules, count, host, path) {
        assert(rules.contains(rules[i]));
        let k = choose|k: int| 0 <= k < count && other_rules[k] == rules[i];
        assert(applies(other_rules[k], host, path));
    }
    if let Some(j) = best(other_rules, count, host, path) {
        assert(other_rules.contains(other_rules[j]));
        let k = choose|k: int| 0 <= k < count && rules[k] == other_rules[j];
        assert(applies(rules[k], host, path));
        let i = best(rules, count, host, path).unwrap();
        assert(other_rules.contains(rules[i])) by {
            assert(rules.contains(rules[i]));
        }
        let l = choose|l: int| 0 <= l < count && other_rules[l] == rules[i];
        assert(!preferred(rules[k], rules[i]));
        assert(!preferred(other_rules[l], other_rules[j]));
        assert(rules[k].declaration_order == rules[i].declaration_order);
    }
}

/// No rule is at fault where a route, or none, was found.
proof fn lemma_rules_accepted(
    authority: AuthorityModel,
    target: TargetModel,
    rules: Seq<RuleModel>,
    bounded: bool,
)
    requires
        routed(authority, target, rules, bounded) is Ok || routed(authority, target, rules, bounded)
            == Err::<MatchModel, Fault>(Fault::NoRoute),
    ensures
        rules.len() <= ROUTE_LIMIT,
        routing_path(target) is Some,
        rules_fault(rules, 0, bounded) is None,
{
    lemma_fault_is_of_a_rule(rules, 0, bounded);
}

proof fn lemma_fault_is_of_a_rule(rules: Seq<RuleModel>, i: int, bounded: bool)
    ensures
        rules_fault(rules, i, bounded) matches Some(fault) ==> fault is InvalidRoute,
    decreases rules.len() - i,
{
    if i < rules.len() {
        lemma_fault_is_of_a_rule(rules, i + 1, bounded);
    }
}

/// The path that a target is routed by.
pub fn routing_path_of<'a>(target: &'a NormalizedTarget) -> (path: Option<&'a [u8]>)
    ensures
        match path {
            Some(p) => routing_path(target@) == Some(p@),
            None => routing_path(target@) is None,
        },
{
    let path: &'a [u8] = target.routing_path.as_str().as_bytes();
    match &target.form {
        TargetForm::Origin | TargetForm::Absolute => {
            if path.len() > 0 && path[0] == '/' as u8 {
                Some(path)
            } else {
                None
            }
        },
        TargetForm::Authority | TargetForm::Asterisk => None,
    }
}

/// Whether the bytes are a canonical host.
pub fn is_canonical_host(host: &[u8]) -> (valid: bool)
    ensures
        valid == is_route_host(host@),
{
    if host.len() >= 2 && host[0] == '[' as u8 && host[host.len() - 1] == ']' as u8 {
        let address: &[u8] = &host[1..host.len() - 1];
        is_ipv6_text(address) && !any_byte_in(address, ByteClass::Upper)
    } else {
        is_dns(host) && !any_byte_in(host, ByteClass::Upper)
    }
}

/// Whether a canonical escape stands at `i`.
pub fn has_canonical_escape(s: &[u8], i: usize) -> (valid: bool)
    requires
        i < s@.len(),
    ensures
        valid == is_canonical_escape(s@, i as int),
{
    if s.len() - i <= 2 {
        return false;
    }
    let high: u8 = s[i + 1];
    let low: u8 = s[i + 2];
    if !is_upper_hex(high) || !is_upper_hex(low) {
        return false;
    }
    let decoded: u8 = hex_digit_value(high) * 16 + hex_digit_value(low);
    !is_control(decoded) && decoded != '\\' as u8 && !is_unreserved(decoded)
}

/// Whether the bytes are path bytes and canonical escapes.
pub fn is_canonical_path_text(s: &[u8]) -> (valid: bool)
    ensures
        valid == is_canonical_path(s@, 0),
{
    let mut i: usize = 0;
    while i < s.len()
        invariant
            i <= s@.len(),
            is_canonical_path(s@, 0) == is_canonical_path(s@, i as int),
        decreases s@.len() - i,
    {
        if s[i] == '%' as u8 {
            if !has_canonical_escape(s, i) {
                return false;
            }
            i += 3;
        } else {
            if !is_path_byte(s[i]) {
                return false;
            }
            i += 1;
        }
    }
    true
}

/// Whether a segment stands for the current or the parent directory.
pub fn is_dots(s: &[u8]) -> (dots: bool)
    ensures
        dots == is_dot_segment(s@),
{
    if s.len() == 1 {
        assert(is_dot_segment(s@) ==> s@[0] == '.' as u8);
        assert(s@[0] == '.' as u8 ==> s@ =~= seq!['.' as u8]);
        s[0] == '.' as u8
    } else if s.len() == 2 {
        assert(is_dot_segment(s@) ==> s@[0] == '.' as u8 && s@[1] == '.' as u8);
        assert(s@[0] == '.' as u8 && s@[1] == '.' as u8 ==> s@ =~= seq!['.' as u8, '.' as u8]);
        s[0] == '.' as u8 && s[1] == '.' as u8
    } else {
        false
    }
}

/// Whether some segment of a path stands for the current or the parent directory.
pub fn has_dots(s: &[u8]) -> (found: bool)
    ensures
        found == has_dot_segment(s@),
{
    let segments: Vec<&[u8]> = split_on(s, '/' as u8);
    let mut i: usize = 0;
    while i < segments.len()
        invariant
            i <= segments@.len(),
            segments@.len() == split(s@, '/' as u8).len(),
            forall|k: int|
                0 <= k < segments@.len() ==> (#[trigger] segments@[k])@ == split(s@, '/' as u8)[k],
            forall|k: int| 0 <= k < i ==> !is_dot_segment(#[trigger] split(s@, '/' as u8)[k]),
        decreases segments@.len() - i,
    {
        assert(segments@[i as int]@ == split(s@, '/' as u8)[i as int]);
        if is_dots(segments[i]) {
            return true;
        }
        i += 1;
    }
    false
}

/// Whether the bytes are a canonical path prefix.
pub fn is_canonical_prefix(prefix: &[u8], bounded: bool) -> (valid: bool)
    ensures
        valid == is_route_prefix(prefix@, bounded),
{
    if prefix.len() == 0 || (bounded && prefix.len() > PATH_LIMIT) || prefix[0] != '/' as u8 {
        return false;
    }
    if prefix.len() > 1 && prefix[prefix.len() - 1] == '/' as u8 {
        return false;
    }
    is_canonical_path_text(prefix) && !has_dots(prefix)
}

/// Whether the bytes are an upstream's name.
pub fn is_upstream_text(s: &[u8]) -> (valid: bool)
    ensures
        valid == is_upstream_name(s@),
{
    if s.len() == 0 || s.len() > UPSTREAM_LIMIT {
        return false;
    }
    let mut i: usize = 0;
    while i < s.len()
        invariant
            i <= s@.len(),
            1 <= s@.len() <= UPSTREAM_LIMIT,
            forall|j: int| 0 <= j < i ==> is_upstream_byte(#[trigger] s@[j]),
        decreases s@.len() - i,
    {
        if !is_upstream_byte(s[i]) {
            return false;
        }
        i += 1;
    }
    true
}

/// Whether a prefix covers a path.
pub fn prefix_covers_path(prefix: &[u8], path: &[u8]) -> (covered: bool)
    ensures
        covered == covers(prefix@, path@),
{
    if prefix.len() == 1 && prefix[0] == '/' as u8 {
        assert(prefix@ =~= seq!['/' as u8]);
        return true;
    }
    assert(prefix@ != seq!['/' as u8]) by {
        if prefix@ == seq!['/' as u8] {
            assert(prefix@[0] == '/' as u8);
        }
    }
    if prefix.len() > path.len() {
        return false;
    }
    let beginning: &[u8] = &path[0..prefix.len()];
    assert(beginning@ =~= path@.take(prefix@.len() as int));
    same_bytes(beginning, prefix) && (prefix.len() == path.len() || path[prefix.len()] == '/' as u8)
}

/// One rule more among those that a declaration order may be taken by.
pub proof fn lemma_order_taken_next(rules: Seq<RuleModel>, i: int)
    requires
        0 <= i < rules.len(),
    ensures
        forall|order: int|
            #[trigger] order_taken(rules, i + 1, order) <==> order_taken(rules, i, order)
                || rules[i].declaration_order == order,
{
    assert forall|order: int| #[trigger] order_taken(rules, i + 1, order) <==> order_taken(
        rules,
        i,
        order,
    ) || rules[i].declaration_order == order by {
        if order_taken(rules, i, order) {
            let j = choose|j: int|
                0 <= j < i && (#[trigger] rules[j]).declaration_order == order;
            assert(rules[j].declaration_order == order);
        }
        if rules[i].declaration_order == order {
            assert(order_taken(rules, i + 1, order));
        }
    }
}

} // verus!
