//! Telemetry classification by looking a code up in a table of rules.

use vstd::prelude::*;
use crate::telemetry::{
    category_of, classified, code_of, lemma_codes_are_distinct, lemma_fingerprint,
    permits_upstream, recorded,
};
use crate::text::same_text;
use crate::types::{OutcomeCategory, PolyguardError, Result, TelemetryOutcome, outcome};

verus! {

const MAX_CODE_BYTES: usize = 27;

const RULE_COUNT: usize = 9;

#[derive(Clone, Copy, PartialEq, Eq, Structural)]
enum UpstreamConstraint {
    Either,
    MustNotBeReached,
}

struct OutcomeRule {
    code: &'static str,
    category: OutcomeCategory,
    success: bool,
    upstream: UpstreamConstraint,
}

impl OutcomeRule {
    /// A rule says of its category what the classification says.
    spec fn well_formed(self) -> bool {
        &&& self.code@ == code_of(self.category)
        &&& self.success == (self.category is Accepted)
        &&& (self.upstream is Either) == permits_upstream(self.category)
    }
}

/// The category of the rule at an index.
spec fn category_at(index: int) -> OutcomeCategory {
    if index == 0 {
        OutcomeCategory::Accepted
    } else if index == 1 {
        OutcomeCategory::ClientSyntax
    } else if index == 2 {
        OutcomeCategory::AmbiguousFraming
    } else if index == 3 {
        OutcomeCategory::PolicyRejected
    } else if index == 4 {
        OutcomeCategory::RouteMissing
    } else if index == 5 {
        OutcomeCategory::UpstreamFailure
    } else if index == 6 {
        OutcomeCategory::Timeout
    } else if index == 7 {
        OutcomeCategory::ImplementationDisagreement
    } else {
        OutcomeCategory::InternalFailure
    }
}

fn rule_at(index: usize) -> (rule: OutcomeRule)
    requires
        index < RULE_COUNT,
    ensures
        rule.well_formed(),
        rule.category == category_at(index as int),
{
    match index {
        0 => OutcomeRule {
            code: "accepted",
            category: OutcomeCategory::Accepted,
            success: true,
            upstream: UpstreamConstraint::Either,
        },
        1 => OutcomeRule {
            code: "client_syntax",
            category: OutcomeCategory::ClientSyntax,
            success: false,
            upstream: UpstreamConstraint::MustNotBeReached,
        },
        2 => OutcomeRule {
            code: "ambiguous_framing",
            category: OutcomeCategory::AmbiguousFraming,
            success: false,
            upstream: UpstreamConstraint::MustNotBeReached,
        },
        3 => OutcomeRule {
            code: "policy_rejected",
            category: OutcomeCategory::PolicyRejected,
            success: false,
            upstream: UpstreamConstraint::MustNotBeReached,
        },
        4 => OutcomeRule {
            code: "route_missing",
            category: OutcomeCategory::RouteMissing,
            success: false,
            upstream: UpstreamConstraint::MustNotBeReached,
        },
        5 => OutcomeRule {
            code: "upstream_failure",
            category: OutcomeCategory::UpstreamFailure,
            success: false,
            upstream: UpstreamConstraint::Either,
        },
        6 => OutcomeRule {
            code: "timeout",
            category: OutcomeCategory::Timeout,
            success: false,
            upstream: UpstreamConstraint::Either,
        },
        7 => OutcomeRule {
            code: "implementation_disagreement",
            category: OutcomeCategory::ImplementationDisagreement,
            success: false,
            upstream: UpstreamConstraint::MustNotBeReached,
        },
        _ => OutcomeRule {
            code: "internal_failure",
            category: OutcomeCategory::InternalFailure,
            success: false,
            upstream: UpstreamConstraint::Either,
        },
    }
}

struct RecognizedOutcome(OutcomeRule);

impl RecognizedOutcome {
    fn parse(code: &str) -> (recognized: Result<Self>)
        ensures
            match recognized {
                Ok(r) => r.0.well_formed() && category_of(code@) == Some(r.0.category),
                Err(e) => category_of(code@) is None && e is SerializationInvariant,
            },
    {
        if code.as_bytes().len() > MAX_CODE_BYTES {
            proof {
                if let Some(category) = category_of(code@) {
                    lemma_fingerprint(category);
                }
            }
            return Err(PolyguardError::SerializationInvariant);
        }
        let mut index: usize = 0;
        while index < RULE_COUNT
            invariant
                index <= RULE_COUNT,
                forall|j: int| 0 <= j < index ==> code@ != #[trigger] code_of(category_at(j)),
            decreases RULE_COUNT - index,
        {
            let rule = rule_at(index);
            if same_text(rule.code, code) {
                proof {
                    lemma_codes_are_distinct(rule.category);
                }
                return Ok(RecognizedOutcome(rule));
            }
            index += 1;
        }
        assert(category_of(code@) is None) by {
            assert(code@ != code_of(category_at(0)));
            assert(code@ != code_of(category_at(1)));
            assert(code@ != code_of(category_at(2)));
            assert(code@ != code_of(category_at(3)));
            assert(code@ != code_of(category_at(4)));
            assert(code@ != code_of(category_at(5)));
            assert(code@ != code_of(category_at(6)));
            assert(code@ != code_of(category_at(7)));
            assert(code@ != code_of(category_at(8)));
        }
        Err(PolyguardError::SerializationInvariant)
    }

    fn validate_upstream(self, upstream_reached: bool) -> (validated: Result<Self>)
        requires
            self.0.well_formed(),
        ensures
            match validated {
                Ok(r) => r == self && !(upstream_reached && !permits_upstream(self.0.category)),
                Err(e) => upstream_reached && !permits_upstream(self.0.category)
                    && e is SerializationInvariant,
            },
    {
        if upstream_reached && matches!(self.0.upstream, UpstreamConstraint::MustNotBeReached) {
            return Err(PolyguardError::SerializationInvariant);
        }
        Ok(self)
    }

    fn into_public(self) -> (public: TelemetryOutcome)
        requires
            self.0.well_formed(),
        ensures
            public == recorded(self.0.category),
    {
        TelemetryOutcome { category: self.0.category, success: self.0.success }
    }
}

/// Classify a fixed internal outcome without incorporating request or error data.
pub fn classify_telemetry_outcome(code: &str, upstream_reached: bool) -> (result: Result<
    TelemetryOutcome,
>)
    ensures
        outcome(result) == classified(code@, upstream_reached),
{
    let recognized = RecognizedOutcome::parse(code)?;
    let consistent = recognized.validate_upstream(upstream_reached)?;
    Ok(consistent.into_public())
}

} // verus!
