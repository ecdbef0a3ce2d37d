//! Route choice with bounded storage and an explicit rank.

use vstd::prelude::*;
use crate::bytes::{ByteClass, any_byte_in, any_in, lowered, same_ignoring_case};
use crate::host::{is_dns, is_dns_name, lemma_dns_name_bytes};
use crate::ip::is_ipv6_text;
use crate::route::{
    PATH_LIMIT, ROUTE_LIMIT, best, covers, has_canonical_escape, has_dots, is_canonical_escape,
    is_canonical_path, is_path_byte, is_route_host, is_route_prefix, is_upstream_name,
    is_upstream_text, lemma_best, lemma_order_taken_next, order_taken, prefix_covers_path,
    route_fault, routed, routing_path, routing_path_of, rules_fault,
};
use crate::text::utf8;
use crate::types::{
    EffectiveAuthority, NormalizedTarget, PolyguardError, Result, RouteMatch, RouteRule,
    RuleModel, invalid_route, limit_exceeded, outcome, rules_of,
};

verus! {

#[derive(Clone, Copy)]
struct RoutingPath<'a>(&'a [u8]);

#[derive(Clone, Copy)]
enum HostName<'a> {
    Dns(&'a [u8]),
    Ipv6(&'a [u8]),
}

impl<'a> HostName<'a> {
    spec fn text(self) -> Seq<u8> {
        match self {
            HostName::Dns(text) => text@,
            HostName::Ipv6(text) => text@,
        }
    }
}

#[derive(Clone, Copy)]
struct PathPrefix<'a>(&'a [u8]);

#[derive(Clone, Copy)]
struct Upstream<'a>(&'a String);

#[derive(Clone, Copy)]
struct Rank {
    prefix_bytes: usize,
    declaration_order: usize,
}

#[derive(Clone, Copy)]
struct Winner<'a> {
    rank: Rank,
    upstream: Upstream<'a>,
}

impl<'a> Winner<'a> {
    spec fn stands_for(self, rule: RuleModel) -> bool {
        &&& self.rank.prefix_bytes == rule.path_prefix.len()
        &&& self.rank.declaration_order == rule.declaration_order
        &&& utf8(self.upstream.0@) == rule.upstream
    }
}

enum Eligibility {
    Eligible,
    HostMismatch,
    PathMismatch,
    BothMismatch,
}

/// A set of declaration orders, in an open-addressed table with one slot for each route that is
/// allowed. A value is stored at its home slot or at the first free one after it.
struct DeclarationOrders {
    values: Vec<usize>,
    occupied: Vec<u64>,
}

const SLOTS: usize = 256;

const SLOT_MASK: usize = 255;

const WORD_BITS: usize = 64;

/// The slot at which the search for a value begins.
spec fn home(value: usize) -> int {
    (value.wrapping_mul(0x9e37_79b9usize) & SLOT_MASK) as int
}

/// The slot that a search looks at after `k` steps.
spec fn probe(start: int, k: int) -> int {
    (start + k) % 256
}

impl DeclarationOrders {
    spec fn is_occupied(self, slot: int) -> bool {
        self.occupied@[slot / 64] & (1u64 << ((slot % 64) as u64)) != 0
    }

    /// Whether the search for the value at a slot finds it after `steps` steps.
    spec fn reachable(self, slot: int, steps: int) -> bool {
        let start = home(self.values@[slot]);
        &&& 0 <= steps < 256
        &&& slot == probe(start, steps)
        &&& forall|k: int| 0 <= k < steps ==> self.is_occupied(#[trigger] probe(start, k))
    }

    spec fn well_formed(self) -> bool {
        &&& self.values@.len() == 256
        &&& self.occupied@.len() == 4
        &&& forall|slot: int|
            0 <= slot < 256 && #[trigger] self.is_occupied(slot) ==> exists|steps: int|
                self.reachable(slot, steps)
    }

    spec fn has(self, value: usize) -> bool {
        exists|slot: int|
            0 <= slot < 256 && #[trigger] self.is_occupied(slot) && self.values@[slot] == value
    }

    /// How many of the first `n` slots are occupied.
    spec fn count(self, n: int) -> int
        decreases n,
    {
        if n <= 0 {
            0
        } else {
            self.count(n - 1) + if self.is_occupied(n - 1) {
                1int
            } else {
                0
            }
        }
    }

    fn empty() -> (orders: Self)
        ensures
            orders.well_formed(),
            orders.count(256) == 0,
            forall|value: usize| !#[trigger] orders.has(value),
    {
        let mut values: Vec<usize> = Vec::new();
        let mut index: usize = 0;
        while index < SLOTS
            invariant
                index <= SLOTS,
                values@.len() == index,
            decreases SLOTS - index,
        {
            values.push(0);
            index += 1;
        }
        let mut occupied: Vec<u64> = Vec::new();
        occupied.push(0);
        occupied.push(0);
        occupied.push(0);
        occupied.push(0);
        let orders = DeclarationOrders { values, occupied };
        proof {
            assert forall|slot: int| 0 <= slot < 256 implies !#[trigger] orders.is_occupied(slot) by {
                let shift = (slot % 64) as u64;
                assert(0u64 & (1u64 << shift) == 0) by (bit_vector);
                assert(orders.occupied@[slot / 64] == 0);
            }
            orders.lemma_count_none(256);
        }
        orders
    }

    proof fn lemma_count_none(self, n: int)
        requires
            0 <= n <= 256,
            forall|slot: int| 0 <= slot < 256 ==> !#[trigger] self.is_occupied(slot),
        ensures
            self.count(n) == 0,
        decreases n,
    {
        if n > 0 {
            self.lemma_count_none(n - 1);
        }
    }

    proof fn lemma_count_all(self, n: int)
        requires
            0 <= n <= 256,
            forall|slot: int| 0 <= slot < 256 ==> #[trigger] self.is_occupied(slot),
        ensures
            self.count(n) == n,
        decreases n,
    {
        if n > 0 {
            self.lemma_count_all(n - 1);
        }
    }

    /// Occupying one slot more raises the count by one.
    proof fn lemma_count_more(before: Self, after: Self, slot: int, n: int)
        requires
            0 <= slot < 256,
            0 <= n <= 256,
            !before.is_occupied(slot),
            after.is_occupied(slot),
            forall|other: int|
                0 <= other < 256 && other != slot ==> #[trigger] after.is_occupied(other)
                    == before.is_occupied(other),
        ensures
            after.count(n) == before.count(n) + if slot < n {
                1int
            } else {
                0
            },
        decreases n,
    {
        if n > 0 {
            Self::lemma_count_more(before, after, slot, n - 1);
            if n - 1 != slot {
                assert(after.is_occupied(n - 1) == before.is_occupied(n - 1));
            }
        }
    }

    /// Adds a value; says whether it is new.
    fn insert(&mut self, value: usize) -> (added: bool)
        requires
            old(self).well_formed(),
            old(self).count(256) < 256,
        ensures
            final(self).well_formed(),
            added == !old(self).has(value),
            forall|other: usize|
                #[trigger] final(self).has(other) <==> old(self).has(other) || other == value,
            final(self).count(256) <= old(self).count(256) + 1,
    {
        let mut slot: usize = value.wrapping_mul(0x9e37_79b9usize) & SLOT_MASK;
        assert(slot < 256) by {
            let hashed = value.wrapping_mul(0x9e37_79b9usize);
            assert(hashed & 255usize < 256usize) by (bit_vector);
        }
        let ghost start = slot as int;
        let mut step: usize = 0;
        while step < SLOTS
            invariant
                step <= SLOTS,
                self.well_formed(),
                *self == *old(self),
                self.count(256) < 256,
                0 <= start < 256,
                start == home(value),
                slot < 256,
                slot == probe(start, step as int),
                forall|k: int|
                    0 <= k < step ==> self.is_occupied(#[trigger] probe(start, k))
                        && self.values@[probe(start, k)] != value,
            decreases SLOTS - step,
        {
            let word: usize = slot / WORD_BITS;
            let shift: u64 = (slot % WORD_BITS) as u64;
            let mask: u64 = 1u64 << shift;
            let taken: bool = self.occupied[word] & mask != 0;
            assert(taken == self.is_occupied(slot as int));
            if !taken {
                proof {
                    assert(!self.has(value)) by {
                        if self.has(value) {
                            let s = choose|s: int|
                                0 <= s < 256 && #[trigger] self.is_occupied(s) && self.values@[s]
                                    == value;
                            let d = choose|d: int| self.reachable(s, d);
                            if d < step {
                                assert(self.values@[probe(start, d)] != value);
                            } else if d > step {
                                assert(self.is_occupied(probe(start, step as int)));
                            }
                        }
                    }
                }
                let bits: u64 = self.occupied[word] | mask;
                self.values.set(slot, value);
                self.occupied.set(word, bits);
                proof {
                    self.lemma_inserted(*old(self), value, slot as int, step as int);
                }
                return true;
            }
            if self.values[slot] == value {
                assert(self.is_occupied(slot as int) && self.values@[slot as int] == value);
                return false;
            }
            assert((slot + 1) as usize & 255usize == (slot + 1) % 256) by {
                let next = (slot + 1) as usize;
                assert(next & 255usize == next % 256usize) by (bit_vector);
            }
            slot = (slot + 1) & SLOT_MASK;
            step += 1;
        }
        // A full table means all 256 bounded declarations were distinct.
        proof {
            assert forall|s: int| 0 <= s < 256 implies #[trigger] self.is_occupied(s) by {
                let k = (s - start + 256) % 256;
                assert(probe(start, k) == s);
                assert(self.is_occupied(probe(start, k)));
            }
            self.lemma_count_all(256);
        }
        true
    }

    /// What storing a value at the free slot that ends its search does.
    proof fn lemma_inserted(self, before: Self, value: usize, slot: int, step: int)
        requires
            before.well_formed(),
            0 <= slot < 256,
            0 <= step < 256,
            slot == probe(home(value), step),
            !before.is_occupied(slot),
            !before.has(value),
            forall|k: int|
                0 <= k < step ==> before.is_occupied(#[trigger] probe(home(value), k)),
            self.values@ == before.values@.update(slot, value),
            self.occupied@ == before.occupied@.update(
                slot / 64,
                before.occupied@[slot / 64] | (1u64 << ((slot % 64) as u64)),
            ),
        ensures
            self.well_formed(),
            forall|other: usize|
                #[trigger] self.has(other) <==> before.has(other) || other == value,
            self.count(256) == before.count(256) + 1,
    {
        let word = before.occupied@[slot / 64];
        let shift = (slot % 64) as u64;
        assert((word | (1u64 << shift)) & (1u64 << shift) != 0) by (bit_vector)
            requires
                shift < 64,
        ;
        assert forall|other: int| 0 <= other < 256 && other != slot implies #[trigger]
        self.is_occupied(other) == before.is_occupied(other) by {
            if other / 64 == slot / 64 {
                let s2 = (other % 64) as u64;
                assert(s2 != shift);
                assert((word | (1u64 << shift)) & (1u64 << s2) == word & (1u64 << s2)) by (bit_vector)
                    requires
                        shift < 64,
                        s2 < 64,
                        shift != s2,
                ;
            }
        }
        assert forall|s: int| 0 <= s < 256 && #[trigger] self.is_occupied(s) implies exists|d: int|
            self.reachable(s, d) by {
            if s == slot {
                assert forall|k: int| 0 <= k < step implies self.is_occupied(
                    #[trigger] probe(home(value), k),
                ) by {
                    assert(before.is_occupied(probe(home(value), k)));
                }
                assert(self.reachable(s, step));
            } else {
                assert(before.is_occupied(s));
                let d = choose|d: int| before.reachable(s, d);
                let start = home(before.values@[s]);
                assert forall|k: int| 0 <= k < d implies self.is_occupied(
                    #[trigger] probe(start, k),
                ) by {
                    assert(before.is_occupied(probe(start, k)));
                }
                assert(self.reachable(s, d));
            }
        }
        assert forall|other: usize| #[trigger] self.has(other) <==> before.has(other) || other
            == value by {
            if self.has(other) {
                let s = choose|s: int|
                    0 <= s < 256 && #[trigger] self.is_occupied(s) && self.values@[s] == other;
                if s != slot {
                    assert(before.is_occupied(s) && before.values@[s] == other);
                }
            }
            if before.has(other) {
                let s = choose|s: int|
                    0 <= s < 256 && #[trigger] before.is_occupied(s) && before.values@[s] == other;
                assert(self.is_occupied(s) && self.values@[s] == other);
            }
            if other == value {
                assert(self.is_occupied(slot) && self.values@[slot] == value);
            }
        }
        Self::lemma_count_more(before, self, slot, 256);
    }
}

/// Select an upstream with bounded borrowed domain values and an explicit rank comparison.
pub fn match_route(
    authority: &EffectiveAuthority,
    target: &NormalizedTarget,
    routes: &[RouteRule],
) -> (result: Result<RouteMatch>)
    ensures
        outcome(result) == routed(authority@, target@, rules_of(routes@), true),
{
    if routes.len() > ROUTE_LIMIT {
        return Err(limit_exceeded("route_count", ROUTE_LIMIT, routes.len()));
    }
    let path = RoutingPath::from_target(target)?;
    let mut orders = DeclarationOrders::empty();
    let mut winner: Option<Winner<'_>> = None;
    let mut index: usize = 0;
    let ghost models = rules_of(routes@);
    let ghost wanted = authority@.host;
    while index < routes.len()
        invariant
            index <= routes@.len() <= ROUTE_LIMIT,
            models == rules_of(routes@),
            wanted == authority@.host,
            routing_path(target@) == Some(path.0@),
            rules_fault(models, 0, true) == rules_fault(models, index as int, true),
            orders.well_formed(),
            orders.count(256) <= index,
            forall|order: usize|
                #[trigger] orders.has(order) <==> order_taken(models, index as int, order as int),
            match winner {
                Some(w) => best(models, index as int, wanted, path.0@) is Some && w.stands_for(
                    models[best(models, index as int, wanted, path.0@).unwrap()],
                ),
                None => best(models, index as int, wanted, path.0@) is None,
            },
        decreases routes@.len() - index,
    {
        let rule: &RouteRule = &routes[index];
        proof {
            assert(models[index as int] == rule@);
            lemma_order_taken_next(models, index as int);
            lemma_best(models, index as int, wanted, path.0@);
        }
        let host = HostName::parse(rule.host.as_str())?;
        let prefix = PathPrefix::parse(rule.path_prefix.as_str())?;
        let upstream = Upstream::parse(&rule.upstream)?;
        if !orders.insert(rule.declaration_order) {
            return Err(invalid_route("duplicate_declaration_order"));
        }
        let eligibility = match (
            host.matches(authority.host.as_str().as_bytes()),
            prefix.matches(path),
        ) {
            (true, true) => Eligibility::Eligible,
            (false, true) => Eligibility::HostMismatch,
            (true, false) => Eligibility::PathMismatch,
            (false, false) => Eligibility::BothMismatch,
        };
        match eligibility {
            Eligibility::Eligible => {
                let challenger = Winner {
                    rank: Rank {
                        prefix_bytes: prefix.0.len(),
                        declaration_order: rule.declaration_order,
                    },
                    upstream,
                };
                winner = Some(prefer(winner, challenger));
            },
            Eligibility::HostMismatch | Eligibility::PathMismatch | Eligibility::BothMismatch => {},
        }
        index += 1;
    }
    match winner {
        Some(selected) => Ok(
            RouteMatch {
                upstream: selected.upstream.0.clone(),
                declaration_order: selected.rank.declaration_order,
            },
        ),
        None => Err(PolyguardError::NoRoute),
    }
}

/// The challenger where it outranks what was chosen so far; else what was chosen.
fn prefer<'a>(current: Option<Winner<'a>>, challenger: Winner<'a>) -> (kept: Winner<'a>)
    ensures
        kept == match current {
            None => challenger,
            Some(selected) => if challenger.rank.prefix_bytes > selected.rank.prefix_bytes || (
            challenger.rank.prefix_bytes == selected.rank.prefix_bytes
                && challenger.rank.declaration_order < selected.rank.declaration_order) {
                challenger
            } else {
                selected
            },
        },
{
    match current {
        None => challenger,
        Some(selected) => {
            if challenger.rank.prefix_bytes > selected.rank.prefix_bytes {
                challenger
            } else if challenger.rank.prefix_bytes < selected.rank.prefix_bytes {
                selected
            } else if challenger.rank.declaration_order < selected.rank.declaration_order {
                challenger
            } else {
                selected
            }
        },
    }
}

impl<'a> RoutingPath<'a> {
    fn from_target(target: &'a NormalizedTarget) -> (path: Result<Self>)
        ensures
            match path {
                Ok(p) => routing_path(target@) == Some(p.0@),
                Err(e) => routing_path(target@) is None && e@ == route_fault("invalid_target"@),
            },
    {
        match routing_path_of(target) {
            Some(path) => Ok(RoutingPath(path)),
            None => Err(invalid_route("invalid_target")),
        }
    }
}

impl<'a> HostName<'a> {
    fn parse(text: &'a str) -> (host: Result<Self>)
        ensures
            match host {
                Ok(h) => is_route_host(utf8(text@)) && h.text() == utf8(text@),
                Err(e) => !is_route_host(utf8(text@)) && e@ == route_fault("invalid_host"@),
            },
    {
        let bytes: &'a [u8] = text.as_bytes();
        let opens: bool = bytes.len() > 0 && bytes[0] == '[' as u8;
        let closes: bool = bytes.len() > 0 && bytes[bytes.len() - 1] == ']' as u8;
        match (opens, closes) {
            (true, true) => {
                let literal: &[u8] = &bytes[1..bytes.len() - 1];
                if !any_byte_in(literal, ByteClass::Upper) && is_ipv6_text(literal) {
                    Ok(HostName::Ipv6(bytes))
                } else {
                    Err(invalid_route("invalid_host"))
                }
            },
            (true, false) | (false, true) => {
                proof {
                    if is_dns_name(bytes@) {
                        lemma_dns_name_bytes(bytes@);
                        assert(ByteClass::Label.has(bytes@[0]) || bytes@[0] == '.' as u8);
                        assert(ByteClass::Label.has(bytes@.last()) || bytes@.last() == '.' as u8);
                    }
                }
                Err(invalid_route("invalid_host"))
            },
            (false, false) => {
                validate_dns(bytes)?;
                Ok(HostName::Dns(bytes))
            },
        }
    }

    fn matches(self, authority: &[u8]) -> (matched: bool)
        ensures
            matched == (lowered(self.text()) == lowered(authority@)),
    {
        match self {
            HostName::Dns(text) | HostName::Ipv6(text) => same_ignoring_case(text, authority),
        }
    }
}

fn validate_dns(text: &[u8]) -> (valid: Result<()>)
    ensures
        match valid {
            Ok(_) => is_dns_name(text@) && !any_in(text@, ByteClass::Upper),
            Err(e) => !(is_dns_name(text@) && !any_in(text@, ByteClass::Upper)) && e@
                == route_fault("invalid_host"@),
        },
{
    if is_dns(text) && !any_byte_in(text, ByteClass::Upper) {
        Ok(())
    } else {
        Err(invalid_route("invalid_host"))
    }
}

impl<'a> PathPrefix<'a> {
    fn parse(text: &'a str) -> (prefix: Result<Self>)
        ensures
            match prefix {
                Ok(p) => is_route_prefix(utf8(text@), true) && p.0@ == utf8(text@),
                Err(e) => !is_route_prefix(utf8(text@), true) && e@ == route_fault(
                    "invalid_path_prefix"@,
                ),
            },
    {
        let bytes: &'a [u8] = text.as_bytes();
        if bytes.len() == 0 || bytes[0] != '/' as u8 || bytes.len() > PATH_LIMIT || (bytes.len() > 1
            && bytes[bytes.len() - 1] == '/' as u8) {
            return Err(invalid_route("invalid_path_prefix"));
        }
        let mut cursor: usize = 0;
        while cursor < bytes.len()
            invariant
                cursor <= bytes@.len(),
                bytes@ == utf8(text@),
                is_canonical_path(bytes@, 0) == is_canonical_path(bytes@, cursor as int),
            decreases bytes@.len() - cursor,
        {
            if bytes[cursor] == '%' as u8 {
                cursor = canonical_escape_end(bytes, cursor)?;
            } else if is_path_byte(bytes[cursor]) {
                cursor += 1;
            } else {
                return Err(invalid_route("invalid_path_prefix"));
            }
        }
        if has_dots(bytes) {
            return Err(invalid_route("invalid_path_prefix"));
        }
        Ok(PathPrefix(bytes))
    }

    fn matches(self, path: RoutingPath<'_>) -> (matched: bool)
        ensures
            matched == covers(self.0@, path.0@),
    {
        prefix_covers_path(self.0, path.0)
    }
}

fn canonical_escape_end(bytes: &[u8], percent: usize) -> (end: Result<usize>)
    requires
        percent < bytes@.len(),
    ensures
        match end {
            Ok(e) => is_canonical_escape(bytes@, percent as int) && e == percent + 3,
            Err(e) => !is_canonical_escape(bytes@, percent as int) && e@ == route_fault(
                "invalid_path_prefix"@,
            ),
        },
{
    if bytes.len() - percent > 2 && has_canonical_escape(bytes, percent) {
        Ok(percent + 3)
    } else {
        Err(invalid_route("invalid_path_prefix"))
    }
}

impl<'a> Upstream<'a> {
    fn parse(text: &'a String) -> (upstream: Result<Self>)
        ensures
            match upstream {
                Ok(u) => is_upstream_name(utf8(text@)) && u.0@ == text@,
                Err(e) => !is_upstream_name(utf8(text@)) && e@ == route_fault("invalid_upstream"@),
            },
    {
        if is_upstream_text(text.as_str().as_bytes()) {
            Ok(Upstream(text))
        } else {
            Err(invalid_route("invalid_upstream"))
        }
    }
}

} // verus!
