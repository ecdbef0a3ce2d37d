//! Routing: a rule covers the paths that begin with its segments.

use vstd::prelude::*;
use crate::bytes::{ByteClass, first_in, lemma_first_in, lowered, split};
use crate::route::{
    applies, best, covers, lemma_best, lemma_faults_agree, lemma_orders_distinct,
    lemma_passes_agree, routed, routed_in_passes, rules_fault, single_fault,
};
use crate::types::{AuthorityModel, Fault, MatchModel, RuleModel, TargetModel};

verus! {

/// A prefix covers a path exactly where its segments between slashes are the path's first ones.
proof fn lemma_covers_segments(prefix: Seq<u8>, path: Seq<u8>)
    ensures
        covers(prefix, path) <==> prefix == seq![0x2fu8] || split(prefix, 0x2f).is_prefix_of(
            split(path, 0x2f),
        ),
{
    lemma_reaches_segments(prefix, path);
}

proof fn lemma_reaches_segments(prefix: Seq<u8>, path: Seq<u8>)
    ensures
        (prefix.len() <= path.len() && path.take(prefix.len() as int) == prefix && (prefix.len()
            == path.len() || path[prefix.len() as int] == 0x2f)) <==> split(
            prefix,
            0x2f,
        ).is_prefix_of(split(path, 0x2f)),
    decreases prefix.len(),
{
    let only = ByteClass::Only(0x2fu8);
    let n = prefix.len() as int;
    let reaches = n <= path.len() && path.take(n) == prefix && (n == path.len() || path[n] == 0x2f);
    let pieces = split(prefix, 0x2f);
    let steps = split(path, 0x2f);
    lemma_first_in(prefix, only);
    lemma_first_in(path, only);
    let i = first_in(prefix, only);
    let k = first_in(path, only);
    let first = path.take(k);
    assert(steps.len() >= 1 && steps[0] == first) by {
        if k >= path.len() {
            assert(first =~= path);
        }
    }
    if i >= n {
        assert(pieces =~= seq![prefix]);
        assert(pieces.is_prefix_of(steps) <==> prefix == first) by {
            if pieces.is_prefix_of(steps) {
                assert(pieces[0] == steps.subrange(0, 1)[0]);
            }
            if prefix == first {
                assert(pieces =~= steps.subrange(0, 1));
            }
        }
        if reaches {
            if k < n {
                assert(path.take(n)[k] == path[k]);
                assert(!only.has(prefix[k]));
            }
            if k > n {
                assert(!only.has(path[n]));
            }
            assert(k == n);
        }
        if prefix == first {
            assert(n == k);
        }
    } else {
        let rest = prefix.skip(i + 1);
        let later = split(rest, 0x2f);
        assert(pieces =~= seq![prefix.take(i)] + later);
        assert(later.len() >= 1);
        if k >= path.len() {
            assert(steps =~= seq![path]);
            if reaches {
                assert(path.take(n)[i] == path[i]);
                assert(!only.has(path[i]));
            }
        } else {
            let onward = path.skip(k + 1);
            let further = split(onward, 0x2f);
            assert(steps =~= seq![first] + further);
            lemma_reaches_segments(rest, onward);
            let m = rest.len() as int;
            let goes_on = m <= onward.len() && onward.take(m) == rest && (m == onward.len()
                || onward[m] == 0x2f);
            assert(pieces.is_prefix_of(steps) <==> prefix.take(i) == first && later.is_prefix_of(
                further,
            )) by {
                if pieces.is_prefix_of(steps) {
                    let shown = steps.subrange(0, pieces.len() as int);
                    assert(pieces[0] == shown[0]);
                    assert forall|x: int| 0 <= x < later.len() implies later[x] == further[x] by {
                        assert(pieces[x + 1] == shown[x + 1]);
                    }
                    assert(later =~= further.subrange(0, later.len() as int));
                }
                if prefix.take(i) == first && later.is_prefix_of(further) {
                    let shown = further.subrange(0, later.len() as int);
                    assert forall|x: int| 0 <= x < pieces.len() implies pieces[x] == steps[x] by {
                        if x > 0 {
                            assert(later[x - 1] == shown[x - 1]);
                        }
                    }
                    assert(pieces =~= steps.subrange(0, pieces.len() as int));
                }
            }
            if reaches {
                assert(path.take(n)[i] == path[i]);
                if k < i {
                    assert(path.take(n)[k] == path[k]);
                    assert(!only.has(prefix[k]));
                }
                if k > i {
                    assert(!only.has(path[i]));
                }
                assert(k == i);
                assert(first =~= prefix.take(i)) by {
                    assert forall|x: int| 0 <= x < i implies first[x] == prefix.take(i)[x] by {
                        assert(path.take(n)[x] == path[x]);
                    }
                }
                assert forall|x: int| 0 <= x < m implies onward.take(m)[x] == rest[x] by {
                    assert(path.take(n)[x + i + 1] == path[x + i + 1]);
                }
                assert(onward.take(m) =~= rest);
                assert(goes_on);
            }
            if prefix.take(i) == first && goes_on {
                assert(i == k);
                assert forall|x: int| 0 <= x < n implies path.take(n)[x] == prefix[x] by {
                    if x < i {
                        assert(first[x] == prefix.take(i)[x]);
                    } else if x > i {
                        assert(onward.take(m)[x - i - 1] == rest[x - i - 1]);
                    }
                }
                assert(path.take(n) =~= prefix);
                if m < onward.len() {
                    assert(path[n] == onward[m]);
                }
            }
        }
    }
}

/// The rule that is chosen is one for the host, in whatever case the host is written, and its
/// prefix is the root or its segments between slashes are the first ones of the routing path.
/// No other such rule has a longer prefix, and of those with one as long it was declared first.
pub proof fn lemma_route_ends_on_segment(
    authority: AuthorityModel,
    target: TargetModel,
    rules: Seq<RuleModel>,
    bounded: bool,
)
    ensures
        routed(authority, target, rules, bounded) matches Ok(found) ==> exists|i: int|
            {
                &&& 0 <= i < rules.len()
                &&& (#[trigger] rules[i]).upstream == found.upstream
                &&& rules[i].declaration_order == found.declaration_order
                &&& lowered(rules[i].host) == lowered(authority.host)
                &&& rules[i].path_prefix == seq![0x2fu8] || split(
                    rules[i].path_prefix,
                    0x2f,
                ).is_prefix_of(split(target.routing_path, 0x2f))
                &&& forall|j: int|
                    0 <= j < rules.len() && lowered((#[trigger] rules[j]).host) == lowered(
                        authority.host,
                    ) && (rules[j].path_prefix == seq![0x2fu8] || split(
                        rules[j].path_prefix,
                        0x2f,
                    ).is_prefix_of(split(target.routing_path, 0x2f))) ==> j == i
                        || rules[j].path_prefix.len() < rules[i].path_prefix.len() || (
                    rules[j].path_prefix.len() == rules[i].path_prefix.len()
                        && rules[j].declaration_order > rules[i].declaration_order)
            },
        routed_in_passes(authority, target, rules, bounded) is Ok ==> routed_in_passes(
            authority,
            target,
            rules,
            bounded,
        ) == routed(authority, target, rules, bounded),
        routed(authority, target, rules, bounded) is Ok ==> routed_in_passes(
            authority,
            target,
            rules,
            bounded,
        ) == routed(authority, target, rules, bounded),
{
    lemma_passes_agree(authority, target, rules, bounded);
    if routed(authority, target, rules, bounded) is Ok {
        let path = target.routing_path;
        let host = authority.host;
        let n = rules.len() as int;
        lemma_best(rules, n, host, path);
        lemma_orders_distinct(rules, 0, bounded);
        let i = best(rules, n, host, path).unwrap();
        lemma_covers_segments(rules[i].path_prefix, path);
        assert forall|j: int|
            0 <= j < rules.len() && lowered((#[trigger] rules[j]).host) == lowered(authority.host)
                && (rules[j].path_prefix == seq![0x2fu8] || split(
                rules[j].path_prefix,
                0x2f,
            ).is_prefix_of(split(target.routing_path, 0x2f))) implies j == i
            || rules[j].path_prefix.len() < rules[i].path_prefix.len() || (
        rules[j].path_prefix.len() == rules[i].path_prefix.len() && rules[j].declaration_order
            > rules[i].declaration_order) by {
            lemma_covers_segments(rules[j].path_prefix, path);
            assert(applies(rules[j], host, path));
        }
        assert(rules[i].upstream == routed(authority, target, rules, bounded)->Ok_0.upstream);
    }
}

/// A path is without a route exactly where no rule for the host has the root as its prefix, nor
/// segments that are the path's first ones.
pub proof fn lemma_no_route_covers(
    authority: AuthorityModel,
    target: TargetModel,
    rules: Seq<RuleModel>,
    bounded: bool,
)
    ensures
        routed(authority, target, rules, bounded) == Err::<MatchModel, Fault>(Fault::NoRoute)
            ==> forall|j: int|
            0 <= j < rules.len() && lowered((#[trigger] rules[j]).host) == lowered(authority.host)
                ==> rules[j].path_prefix != seq![0x2fu8] && !split(
                rules[j].path_prefix,
                0x2f,
            ).is_prefix_of(split(target.routing_path, 0x2f)),
        routed_in_passes(authority, target, rules, bounded) == Err::<MatchModel, Fault>(
            Fault::NoRoute,
        ) ==> routed(authority, target, rules, bounded) == Err::<MatchModel, Fault>(
            Fault::NoRoute,
        ),
{
    let path = target.routing_path;
    let host = authority.host;
    lemma_faults_agree(rules, 0, bounded);
    lemma_single_faults(rules, 0, bounded);
    if routed(authority, target, rules, bounded) == Err::<MatchModel, Fault>(Fault::NoRoute) {
        lemma_rule_faults(rules, 0, bounded);
        lemma_best(rules, rules.len() as int, host, path);
        assert forall|j: int|
            0 <= j < rules.len() && lowered((#[trigger] rules[j]).host) == lowered(
                authority.host,
            ) implies rules[j].path_prefix != seq![0x2fu8] && !split(
            rules[j].path_prefix,
            0x2f,
        ).is_prefix_of(split(path, 0x2f)) by {
            lemma_covers_segments(rules[j].path_prefix, path);
            assert(!applies(rules[j], host, path));
        }
    }
}

proof fn lemma_rule_faults(rules: Seq<RuleModel>, i: int, bounded: bool)
    requires
        0 <= i <= rules.len(),
    ensures
        rules_fault(rules, i, bounded) matches Some(fault) ==> fault is InvalidRoute,
    decreases rules.len() - i,
{
    if i < rules.len() {
        lemma_rule_faults(rules, i + 1, bounded);
    }
}

proof fn lemma_single_faults(rules: Seq<RuleModel>, i: int, bounded: bool)
    requires
        0 <= i <= rules.len(),
    ensures
        single_fault(rules, i, bounded) matches Some(fault) ==> fault is InvalidRoute,
    decreases rules.len() - i,
{
    if i < rules.len() {
        lemma_single_faults(rules, i + 1, bounded);
    }
}

} // verus!
