//! Telemetry classification by a sorted index of code fingerprints.

use vstd::prelude::*;
use crate::telemetry::{
    category_of, classified, code_of, fingerprint, lemma_codes_are_distinct, lemma_fingerprint,
    permits_upstream, recorded,
};
use crate::text::{same_text, utf8};
use crate::types::{OutcomeCategory, PolyguardError, Result, TelemetryOutcome, outcome};

verus! {

const MAX_CODE_BYTES: usize = 27;

const RULE_COUNT: usize = 9;

/// The length, first byte and last byte of a code, ordered in that sequence.
#[derive(Clone, Copy, PartialEq, Eq, Structural)]
struct CodeKey(usize, u8, u8);

impl CodeKey {
    spec fn model(self) -> (int, u8, u8) {
        (self.0 as int, self.1, self.2)
    }

    fn precedes(self, other: CodeKey) -> (less: bool)
        ensures
            less == key_less(self.model(), other.model()),
    {
        self.0 < other.0 || (self.0 == other.0 && (self.1 < other.1 || (self.1 == other.1
            && self.2 < other.2)))
    }
}

spec fn key_less(a: (int, u8, u8), b: (int, u8, u8)) -> bool {
    a.0 < b.0 || (a.0 == b.0 && (a.1 < b.1 || (a.1 == b.1 && a.2 < b.2)))
}

struct BoundedCode<'a>(&'a str);

impl<'a> BoundedCode<'a> {
    fn new(code: &'a str) -> (bounded: Result<Self>)
        ensures
            match bounded {
                Ok(b) => b.0@ == code@ && 0 < utf8(code@).len() <= MAX_CODE_BYTES,
                Err(e) => (utf8(code@).len() == 0 || utf8(code@).len() > MAX_CODE_BYTES)
                    && e is SerializationInvariant,
            },
    {
        let length: usize = code.as_bytes().len();
        if length == 0 || length > MAX_CODE_BYTES {
            return Err(PolyguardError::SerializationInvariant);
        }
        Ok(BoundedCode(code))
    }

    fn key(&self) -> (key: CodeKey)
        requires
            utf8(self.0@).len() > 0,
        ensures
            key.model() == (
                utf8(self.0@).len() as int,
                utf8(self.0@)[0],
                utf8(self.0@).last(),
            ),
    {
        let bytes = self.0.as_bytes();
        CodeKey(bytes.len(), bytes[0], bytes[bytes.len() - 1])
    }
}

#[derive(Clone, Copy)]
enum FixedCategory {
    Accepted,
    ClientSyntax,
    AmbiguousFraming,
    PolicyRejected,
    RouteMissing,
    UpstreamFailure,
    Timeout,
    ImplementationDisagreement,
    InternalFailure,
}

impl FixedCategory {
    spec fn category(self) -> OutcomeCategory {
        match self {
            FixedCategory::Accepted => OutcomeCategory::Accepted,
            FixedCategory::ClientSyntax => OutcomeCategory::ClientSyntax,
            FixedCategory::AmbiguousFraming => OutcomeCategory::AmbiguousFraming,
            FixedCategory::PolicyRejected => OutcomeCategory::PolicyRejected,
            FixedCategory::RouteMissing => OutcomeCategory::RouteMissing,
            FixedCategory::UpstreamFailure => OutcomeCategory::UpstreamFailure,
            FixedCategory::Timeout => OutcomeCategory::Timeout,
            FixedCategory::ImplementationDisagreement => OutcomeCategory::ImplementationDisagreement,
            FixedCategory::InternalFailure => OutcomeCategory::InternalFailure,
        }
    }

    fn emit(self) -> (emitted: TelemetryOutcome)
        ensures
            emitted == recorded(self.category()),
    {
        let category = match self {
            FixedCategory::Accepted => OutcomeCategory::Accepted,
            FixedCategory::ClientSyntax => OutcomeCategory::ClientSyntax,
            FixedCategory::AmbiguousFraming => OutcomeCategory::AmbiguousFraming,
            FixedCategory::PolicyRejected => OutcomeCategory::PolicyRejected,
            FixedCategory::RouteMissing => OutcomeCategory::RouteMissing,
            FixedCategory::UpstreamFailure => OutcomeCategory::UpstreamFailure,
            FixedCategory::Timeout => OutcomeCategory::Timeout,
            FixedCategory::ImplementationDisagreement => OutcomeCategory::ImplementationDisagreement,
            FixedCategory::InternalFailure => OutcomeCategory::InternalFailure,
        };
        TelemetryOutcome { category, success: matches!(self, FixedCategory::Accepted) }
    }
}

struct Rule {
    key: CodeKey,
    literal: &'static str,
    category: FixedCategory,
    permits_upstream: bool,
}

impl Rule {
    spec fn well_formed(self) -> bool {
        let category = self.category.category();
        &&& self.literal@ == code_of(category)
        &&& self.key.model() == fingerprint(category)
        &&& self.permits_upstream == permits_upstream(category)
    }
}

/// The position of a category's rule in the index.
spec fn position(category: OutcomeCategory) -> int {
    match category {
        OutcomeCategory::Timeout => 0,
        OutcomeCategory::Accepted => 1,
        OutcomeCategory::ClientSyntax => 2,
        OutcomeCategory::RouteMissing => 3,
        OutcomeCategory::PolicyRejected => 4,
        OutcomeCategory::InternalFailure => 5,
        OutcomeCategory::UpstreamFailure => 6,
        OutcomeCategory::AmbiguousFraming => 7,
        OutcomeCategory::ImplementationDisagreement => 8,
    }
}

/// The rule at a position; the positions follow the order of the keys.
fn rule_at(index: usize) -> (rule: Rule)
    requires
        index < RULE_COUNT,
    ensures
        rule.well_formed(),
        position(rule.category.category()) == index,
{
    match index {
        0 => Rule {
            key: CodeKey(7, 't' as u8, 't' as u8),
            literal: "timeout",
            category: FixedCategory::Timeout,
            permits_upstream: true,
        },
        1 => Rule {
            key: CodeKey(8, 'a' as u8, 'd' as u8),
            literal: "accepted",
            category: FixedCategory::Accepted,
            permits_upstream: true,
        },
        2 => Rule {
            key: CodeKey(13, 'c' as u8, 'x' as u8),
            literal: "client_syntax",
            category: FixedCategory::ClientSyntax,
            permits_upstream: false,
        },
        3 => Rule {
            key: CodeKey(13, 'r' as u8, 'g' as u8),
            literal: "route_missing",
            category: FixedCategory::RouteMissing,
            permits_upstream: false,
        },
        4 => Rule {
            key: CodeKey(15, 'p' as u8, 'd' as u8),
            literal: "policy_rejected",
            category: FixedCategory::PolicyRejected,
            permits_upstream: false,
        },
        5 => Rule {
            key: CodeKey(16, 'i' as u8, 'e' as u8),
            literal: "internal_failure",
            category: FixedCategory::InternalFailure,
            permits_upstream: true,
        },
        6 => Rule {
            key: CodeKey(16, 'u' as u8, 'e' as u8),
            literal: "upstream_failure",
            category: FixedCategory::UpstreamFailure,
            permits_upstream: true,
        },
        7 => Rule {
            key: CodeKey(17, 'a' as u8, 'g' as u8),
            literal: "ambiguous_framing",
            category: FixedCategory::AmbiguousFraming,
            permits_upstream: false,
        },
        _ => Rule {
            key: CodeKey(27, 'i' as u8, 't' as u8),
            literal: "implementation_disagreement",
            category: FixedCategory::ImplementationDisagreement,
            permits_upstream: false,
        },
    }
}

/// The index of the rule with the given key, by binary search.
fn search(key: CodeKey) -> (found: Option<usize>)
    ensures
        match found {
            Some(index) => index < RULE_COUNT && forall|category: OutcomeCategory|
                #[trigger] position(category) == index ==> fingerprint(category) == key.model(),
            None => forall|category: OutcomeCategory|
                #[trigger] fingerprint(category) != key.model(),
        },
{
    let mut low: usize = 0;
    let mut high: usize = RULE_COUNT;
    while low < high
        invariant
            low <= high <= RULE_COUNT,
            forall|category: OutcomeCategory|
                #[trigger] position(category) < low ==> key_less(
                    fingerprint(category),
                    key.model(),
                ),
            forall|category: OutcomeCategory|
                #[trigger] position(category) >= high ==> key_less(
                    key.model(),
                    fingerprint(category),
                ),
        decreases high - low,
    {
        let middle: usize = low + (high - low) / 2;
        let rule = rule_at(middle);
        if rule.key == key {
            return Some(middle);
        }
        if rule.key.precedes(key) {
            low = middle + 1;
        } else {
            high = middle;
        }
    }
    assert forall|category: OutcomeCategory| #[trigger] fingerprint(category) != key.model() by {
        assert(position(category) < low || position(category) >= high);
    }
    None
}

struct MatchedRule(Rule);

impl MatchedRule {
    fn locate(code: BoundedCode<'_>) -> (located: Result<Self>)
        requires
            utf8(code.0@).len() > 0,
        ensures
            match located {
                Ok(m) => m.0.well_formed() && category_of(code.0@) == Some(m.0.category.category()),
                Err(e) => category_of(code.0@) is None && e is SerializationInvariant,
            },
    {
        proof {
            if let Some(category) = category_of(code.0@) {
                lemma_fingerprint(category);
                lemma_codes_are_distinct(category);
            }
        }
        let key = code.key();
        match search(key) {
            Some(index) => {
                let rule = rule_at(index);
                proof {
                    lemma_codes_are_distinct(rule.category.category());
                }
                if !same_text(code.0, rule.literal) {
                    return Err(PolyguardError::SerializationInvariant);
                }
                Ok(MatchedRule(rule))
            },
            None => Err(PolyguardError::SerializationInvariant),
        }
    }

    fn emit(self, upstream_reached: bool) -> (emitted: Result<TelemetryOutcome>)
        requires
            self.0.well_formed(),
        ensures
            match emitted {
                Ok(o) => o == recorded(self.0.category.category()) && !(upstream_reached
                    && !permits_upstream(self.0.category.category())),
                Err(e) => e is SerializationInvariant && upstream_reached && !permits_upstream(
                    self.0.category.category(),
                ),
            },
    {
        if upstream_reached && !self.0.permits_upstream {
            return Err(PolyguardError::SerializationInvariant);
        }
        Ok(self.0.category.emit())
    }
}

/// Classify a fixed internal code through a bounded fingerprint index.
pub fn classify_telemetry_outcome(code: &str, upstream_reached: bool) -> (result: Result<
    TelemetryOutcome,
>)
    ensures
        outcome(result) == classified(code@, upstream_reached),
{
    proof {
        if let Some(category) = category_of(code@) {
            lemma_fingerprint(category);
        }
    }
    let bounded = BoundedCode::new(code)?;
    let matched = MatchedRule::locate(bounded)?;
    matched.emit(upstream_reached)
}

} // verus!
