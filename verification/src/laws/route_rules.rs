//! Route rules: which are taken, and what is wrong with the others.

use vstd::prelude::*;
use crate::bytes::{ByteClass, any_in, lowered, split};
use crate::ip::is_ipv6;
use crate::laws::byte_text::with_between;
use crate::laws::hosts::{is_dotted, lemma_dns_names};
use crate::laws::targets::{
    Piece, are_pieces, are_segments, lemma_origin_target_is_read, lemma_pieces_bytes, normal,
    normal_query, normal_segments, path_spelling, query_spelling,
};
use crate::request_target::lemma_routing_path_is_canonical;
use crate::route::{
    has_dot_segment, has_duplicate, is_canonical_path, is_dot_segment, is_route_host,
    is_route_prefix, is_upstream_byte, is_upstream_name, lemma_faults_agree,
    lemma_orders_distinct, order_taken, routed, routed_in_passes, rule_fault, rules_fault,
    single_fault,
};
use crate::text::{lemma_ascii_literal, utf8};
use crate::types::{
    AuthorityModel, Fault, HttpVersion, MatchModel, RequestLineModel, RuleModel, TargetModel,
};

verus! {

/// Whether a text holds no capital.
pub open spec fn is_uncapital(s: Seq<u8>) -> bool {
    forall|i: int| 0 <= i < s.len() ==> !(0x41 <= #[trigger] s[i] <= 0x5a)
}

/// No capital is found where there is none.
pub(crate) proof fn lemma_uncapital(s: Seq<u8>)
    ensures
        is_uncapital(s) == !any_in(s, ByteClass::Upper),
{
    if any_in(s, ByteClass::Upper) {
        let i = choose|i: int| 0 <= i < s.len() && ByteClass::Upper.has(#[trigger] s[i]);
        assert(0x41 <= s[i] <= 0x5a);
    }
    if !is_uncapital(s) {
        let i = choose|i: int| 0 <= i < s.len() && (0x41 <= #[trigger] s[i] <= 0x5a);
        assert(ByteClass::Upper.has(s[i]));
    }
}

/// Whether a rule is for a host: a name of dotted labels of at most 253 bytes, or an IPv6
/// address in brackets, without capitals.
pub open spec fn names_host(host: Seq<u8>) -> bool {
    ||| is_dotted(host) && host.len() <= 253 && is_uncapital(host)
    ||| host.len() >= 2 && host[0] == 0x5b && host[host.len() - 1] == 0x5d && is_ipv6(
        host.subrange(1, host.len() - 1),
    ) && is_uncapital(host)
}

proof fn lemma_route_hosts(host: Seq<u8>)
    ensures
        is_route_host(host) == names_host(host),
{
    lemma_dns_names(host);
    lemma_uncapital(host);
    if host.len() >= 2 && host[0] == '[' as u8 && host.last() == ']' as u8 {
        let inner = host.subrange(1, host.len() - 1);
        lemma_uncapital(inner);
        if is_uncapital(host) {
            assert forall|i: int| 0 <= i < inner.len() implies !(0x41 <= #[trigger] inner[i]
                <= 0x5a) by {
                assert(inner[i] == host[i + 1]);
            }
        }
        if is_uncapital(inner) {
            assert forall|i: int| 0 <= i < host.len() implies !(0x41 <= #[trigger] host[i]
                <= 0x5a) by {
                if 1 <= i < host.len() - 1 {
                    assert(host[i] == inner[i - 1]);
                }
            }
        }
        if is_dotted(host) {
            assert(0x2d <= host[0] <= 0x2e || 0x30 <= host[0] <= 0x39 || 0x41 <= host[0] <= 0x5a
                || 0x61 <= host[0] <= 0x7a);
        }
    }
}

/// Whether a rule names an upstream: one to 64 letters, digits, and bytes of `_.-`.
pub open spec fn names_upstream(s: Seq<u8>) -> bool {
    &&& 1 <= s.len() <= 64
    &&& forall|i: int|
        0 <= i < s.len() ==> 0x30 <= #[trigger] s[i] <= 0x39 || 0x41 <= s[i] <= 0x5a || 0x61 <= s[i]
            <= 0x7a || s[i] == 0x5f || s[i] == 0x2e || s[i] == 0x2d
}

proof fn lemma_upstreams(s: Seq<u8>)
    ensures
        is_upstream_name(s) == names_upstream(s),
{
    if is_upstream_name(s) {
        assert forall|i: int| 0 <= i < s.len() implies 0x30 <= #[trigger] s[i] <= 0x39 || 0x41
            <= s[i] <= 0x5a || 0x61 <= s[i] <= 0x7a || s[i] == 0x5f || s[i] == 0x2e || s[i]
            == 0x2d by {
            assert(is_upstream_byte(s[i]));
        }
    }
    if names_upstream(s) {
        assert forall|i: int| 0 <= i < s.len() implies is_upstream_byte(#[trigger] s[i]) by {}
    }
}

/// A path in its normal form is a prefix that a rule may have: it is the root, or it does not end
/// with a slash.
pub proof fn lemma_normal_path_is_prefix(segments: Seq<Seq<Piece>>, bounded: bool)
    requires
        are_segments(segments),
        forall|k: int|
            0 <= k < segments.len() ==> normal(#[trigger] segments[k]) != seq![0x2eu8] && normal(
                segments[k],
            ) != seq![0x2eu8, 0x2eu8],
        segments.len() == 1 || segments.last().len() > 0,
        path_spelling(segments).len() <= 8192,
    ensures
        is_route_prefix(seq![0x2fu8] + with_between(normal_segments(segments), 0x2f), bounded),
{
    let line = RequestLineModel {
        method: utf8("get"@),
        target: path_spelling(segments),
        version: HttpVersion::Http11,
        bytes_consumed: 0,
    };
    reveal_strlit("get");
    reveal_strlit("connect");
    lemma_ascii_literal("get"@);
    lemma_ascii_literal("connect"@);
    assert(lowered(utf8("get"@)).len() == 3);
    assert(utf8("connect"@).len() == 7);
    assert(path_spelling(segments) + query_spelling(None) =~= path_spelling(segments));
    lemma_origin_target_is_read(line, segments, None, true, true);
    lemma_routing_path_is_canonical(line, true, true);
    let said = normal_segments(segments);
    let prefix = seq![0x2fu8] + with_between(said, 0x2f);
    assert(prefix + normal_query(None) =~= prefix);
    assert(prefix.len() > 1 ==> prefix.last() != 0x2f) by {
        let k = segments.len() - 1;
        assert(are_pieces(segments[k], true));
        lemma_pieces_bytes(segments[k], true);
        lemma_normal_is_something(segments[k]);
        if segments.len() == 1 {
            assert(with_between(said, 0x2f) == said[0]);
        }
        assert(said.last() == said[k]);
        if said[k].len() > 0 {
            lemma_last_between(said);
            assert(normal(segments[k])[said[k].len() - 1] != 0x2f);
            assert(prefix.last() == with_between(said, 0x2f).last());
        }
    }
}

proof fn lemma_normal_is_something(pieces: Seq<Piece>)
    ensures
        pieces.len() > 0 ==> normal(pieces).len() > 0,
{
}

proof fn lemma_last_between(texts: Seq<Seq<u8>>)
    requires
        texts.len() >= 1,
        texts.last().len() > 0,
    ensures
        with_between(texts, 0x2f).len() > 0,
        with_between(texts, 0x2f).last() == texts.last().last(),
    decreases texts.len(),
{
    if texts.len() > 1 {
        lemma_last_between(texts.skip(1));
        assert(texts.skip(1).last() == texts.last());
    }
}

/// What is wrong with a rule: first its host, then its prefix, then its upstream. A prefix
/// begins with a slash, is the root or does not end with one, has no segment of a dot or two, and
/// is made of visible bytes without `?`, `#` and `\`; some policies bound it by 8192 bytes.
pub proof fn lemma_rule_is_refused(rule: RuleModel, bounded: bool)
    ensures
        ({
            let prefix = rule.path_prefix;
            let n = prefix.len() as int;
            let misshapen = {
                ||| n == 0
                ||| prefix[0] != 0x2f
                ||| n > 1 && prefix[n - 1] == 0x2f
                ||| bounded && n > 8192
                ||| exists|k: int|
                    0 <= k < split(prefix, 0x2f).len() && (#[trigger] split(prefix, 0x2f)[k]
                        == seq![0x2eu8] || split(prefix, 0x2f)[k] == seq![0x2eu8, 0x2eu8])
                ||| exists|i: int|
                    0 <= i < n && (#[trigger] prefix[i] < 0x21 || prefix[i] > 0x7e || prefix[i]
                        == 0x3f || prefix[i] == 0x23 || prefix[i] == 0x5c)
            };
            let fault = rule_fault(rule, bounded);
            &&& !names_host(rule.host) <==> fault == Some(
                Fault::InvalidRoute { reason: "invalid_host"@ },
            )
            &&& names_host(rule.host) && misshapen ==> fault == Some(
                Fault::InvalidRoute { reason: "invalid_path_prefix"@ },
            )
            &&& names_host(rule.host) && is_route_prefix(prefix, bounded) && !names_upstream(
                rule.upstream,
            ) ==> fault == Some(Fault::InvalidRoute { reason: "invalid_upstream"@ })
            &&& names_host(rule.host) && is_route_prefix(prefix, bounded) && names_upstream(
                rule.upstream,
            ) ==> fault is None
        }),
{
    let prefix = rule.path_prefix;
    let n = prefix.len() as int;
    lemma_route_hosts(rule.host);
    lemma_upstreams(rule.upstream);
    reveal_strlit("invalid_host");
    reveal_strlit("invalid_path_prefix");
    reveal_strlit("invalid_upstream");
    assert("invalid_host"@.len() == 12);
    assert("invalid_path_prefix"@.len() == 19);
    assert("invalid_upstream"@.len() == 16);
    if exists|k: int|
        0 <= k < split(prefix, 0x2f).len() && (#[trigger] split(prefix, 0x2f)[k] == seq![0x2eu8]
            || split(prefix, 0x2f)[k] == seq![0x2eu8, 0x2eu8]) {
        let k = choose|k: int|
            0 <= k < split(prefix, 0x2f).len() && (#[trigger] split(prefix, 0x2f)[k] == seq![0x2eu8]
                || split(prefix, 0x2f)[k] == seq![0x2eu8, 0x2eu8]);
        assert(is_dot_segment(split(prefix, '/' as u8)[k]));
        assert(has_dot_segment(prefix));
    }
    if exists|i: int|
        0 <= i < n && (#[trigger] prefix[i] < 0x21 || prefix[i] > 0x7e || prefix[i] == 0x3f
            || prefix[i] == 0x23 || prefix[i] == 0x5c) {
        let i = choose|i: int|
            0 <= i < n && (#[trigger] prefix[i] < 0x21 || prefix[i] > 0x7e || prefix[i] == 0x3f
                || prefix[i] == 0x23 || prefix[i] == 0x5c);
        lemma_byte_not_in_path(prefix, 0, i);
    }
}

proof fn lemma_byte_not_in_path(s: Seq<u8>, i: int, k: int)
    requires
        0 <= i <= k < s.len(),
        s[k] < 0x21 || s[k] > 0x7e || s[k] == 0x3f || s[k] == 0x23 || s[k] == 0x5c,
    ensures
        !is_canonical_path(s, i),
    decreases s.len() - i,
{
    if s[i] == '%' as u8 {
        if i + 3 <= k {
            lemma_byte_not_in_path(s, i + 3, k);
        }
    } else if i < k {
        lemma_byte_not_in_path(s, i + 1, k);
    }
}

/// Up to 256 rules of which nothing is wrong, no two declared at the same place, choose a route
/// or none for every path; what else can be wrong is named.
pub proof fn lemma_rules_are_taken(
    authority: AuthorityModel,
    target: TargetModel,
    rules: Seq<RuleModel>,
    bounded: bool,
)
    ensures
        ({
            let pathed = (target.form is Origin || target.form is Absolute)
                && target.routing_path.len() > 0 && target.routing_path[0] == 0x2f;
            let sound = forall|i: int|
                0 <= i < rules.len() ==> rule_fault(#[trigger] rules[i], bounded) is None;
            let distinct = forall|i: int, j: int|
                0 <= i < j < rules.len() ==> (#[trigger] rules[i]).declaration_order != (
                #[trigger] rules[j]).declaration_order;
            let one = routed(authority, target, rules, bounded);
            let other = routed_in_passes(authority, target, rules, bounded);
            &&& rules.len() > 256 ==> one == Err::<MatchModel, Fault>(
                Fault::LimitExceeded {
                    limit: "route_count"@,
                    max: 256,
                    actual: rules.len() as int,
                },
            ) && other == one
            &&& rules.len() <= 256 && !pathed ==> one == Err::<MatchModel, Fault>(
                Fault::InvalidRoute { reason: "invalid_target"@ },
            ) && other == one
            &&& rules.len() <= 256 && pathed && sound && distinct ==> (one is Ok || one == Err::<
                MatchModel,
                Fault,
            >(Fault::NoRoute)) && other == one
            &&& rules.len() <= 256 && pathed && sound && !distinct ==> one == Err::<
                MatchModel,
                Fault,
            >(Fault::InvalidRoute { reason: "duplicate_declaration_order"@ }) && other == one
        }),
{
    let sound = forall|i: int|
        0 <= i < rules.len() ==> rule_fault(#[trigger] rules[i], bounded) is None;
    if sound {
        lemma_sound_rules(rules, 0, bounded);
        lemma_faults_agree(rules, 0, bounded);
        let distinct = forall|i: int, j: int|
            0 <= i < j < rules.len() ==> (#[trigger] rules[i]).declaration_order != (
            #[trigger] rules[j]).declaration_order;
        if rules_fault(rules, 0, bounded) is None {
            lemma_orders_distinct(rules, 0, bounded);
        } else if distinct {
            let k = choose|k: int|
                0 <= k < rules.len() && order_taken(
                    rules,
                    k,
                    (#[trigger] rules[k]).declaration_order,
                );
            assert(has_duplicate(rules, 0));
            let j = choose|j: int|
                0 <= j < k && (#[trigger] rules[j]).declaration_order == rules[k].declaration_order;
            assert(rules[j].declaration_order != rules[k].declaration_order);
        }
    }
}

proof fn lemma_sound_rules(rules: Seq<RuleModel>, i: int, bounded: bool)
    requires
        0 <= i <= rules.len(),
        forall|k: int| 0 <= k < rules.len() ==> rule_fault(#[trigger] rules[k], bounded) is None,
    ensures
        single_fault(rules, i, bounded) is None,
        rules_fault(rules, i, bounded) is None || rules_fault(rules, i, bounded) == Some(
            Fault::InvalidRoute { reason: "duplicate_declaration_order"@ },
        ),
    decreases rules.len() - i,
{
    if i < rules.len() {
        lemma_sound_rules(rules, i + 1, bounded);
    }
}

} // verus!
