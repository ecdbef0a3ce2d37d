//! Classifying internal outcome codes for telemetry.

use vstd::prelude::*;
use vstd::utf8::is_ascii_chars;
use crate::text::{lemma_ascii_literal, utf8};
use crate::types::{Fault, OutcomeCategory, TelemetryOutcome, Verdict};

verus! {

/// The code that stands for a category.
pub open spec fn code_of(category: OutcomeCategory) -> Seq<char> {
    match category {
        OutcomeCategory::Accepted => "accepted"@,
        OutcomeCategory::ClientSyntax => "client_syntax"@,
        OutcomeCategory::AmbiguousFraming => "ambiguous_framing"@,
        OutcomeCategory::PolicyRejected => "policy_rejected"@,
        OutcomeCategory::RouteMissing => "route_missing"@,
        OutcomeCategory::UpstreamFailure => "upstream_failure"@,
        OutcomeCategory::Timeout => "timeout"@,
        OutcomeCategory::ImplementationDisagreement => "implementation_disagreement"@,
        OutcomeCategory::InternalFailure => "internal_failure"@,
    }
}

/// The category that a code stands for.
pub open spec fn category_of(code: Seq<char>) -> Option<OutcomeCategory> {
    if code == "accepted"@ {
        Some(OutcomeCategory::Accepted)
    } else if code == "client_syntax"@ {
        Some(OutcomeCategory::ClientSyntax)
    } else if code == "ambiguous_framing"@ {
        Some(OutcomeCategory::AmbiguousFraming)
    } else if code == "policy_rejected"@ {
        Some(OutcomeCategory::PolicyRejected)
    } else if code == "route_missing"@ {
        Some(OutcomeCategory::RouteMissing)
    } else if code == "upstream_failure"@ {
        Some(OutcomeCategory::UpstreamFailure)
    } else if code == "timeout"@ {
        Some(OutcomeCategory::Timeout)
    } else if code == "implementation_disagreement"@ {
        Some(OutcomeCategory::ImplementationDisagreement)
    } else if code == "internal_failure"@ {
        Some(OutcomeCategory::InternalFailure)
    } else {
        None
    }
}

/// Whether an outcome of the category can come about after the upstream was reached.
pub open spec fn permits_upstream(category: OutcomeCategory) -> bool {
    category is Accepted || category is UpstreamFailure || category is Timeout
        || category is InternalFailure
}

/// The outcome that telemetry records for a category.
pub open spec fn recorded(category: OutcomeCategory) -> TelemetryOutcome {
    TelemetryOutcome { category, success: category is Accepted }
}

/// The classification of a code: unknown codes, and codes of outcomes that cannot follow a
/// reached upstream, are refused.
pub open spec fn classified(code: Seq<char>, upstream_reached: bool) -> Verdict<TelemetryOutcome> {
    match category_of(code) {
        Some(category) => if upstream_reached && !permits_upstream(category) {
            Err(Fault::SerializationInvariant)
        } else {
            Ok(recorded(category))
        },
        None => Err(Fault::SerializationInvariant),
    }
}

/// The length, first byte and last byte of a category's code.
pub open spec fn fingerprint(category: OutcomeCategory) -> (int, u8, u8) {
    match category {
        OutcomeCategory::Accepted => (8, 'a' as u8, 'd' as u8),
        OutcomeCategory::ClientSyntax => (13, 'c' as u8, 'x' as u8),
        OutcomeCategory::AmbiguousFraming => (17, 'a' as u8, 'g' as u8),
        OutcomeCategory::PolicyRejected => (15, 'p' as u8, 'd' as u8),
        OutcomeCategory::RouteMissing => (13, 'r' as u8, 'g' as u8),
        OutcomeCategory::UpstreamFailure => (16, 'u' as u8, 'e' as u8),
        OutcomeCategory::Timeout => (7, 't' as u8, 't' as u8),
        OutcomeCategory::ImplementationDisagreement => (27, 'i' as u8, 't' as u8),
        OutcomeCategory::InternalFailure => (16, 'i' as u8, 'e' as u8),
    }
}

/// The codes' lengths and outer bytes.
pub proof fn lemma_fingerprint(category: OutcomeCategory)
    ensures
        code_of(category).len() == fingerprint(category).0,
        code_of(category)[0] == fingerprint(category).1 as char,
        code_of(category).last() == fingerprint(category).2 as char,
        is_ascii_chars(code_of(category)),
        utf8(code_of(category)).len() == fingerprint(category).0,
        utf8(code_of(category))[0] == fingerprint(category).1,
        utf8(code_of(category)).last() == fingerprint(category).2,
{
    reveal_strlit("accepted");
    reveal_strlit("client_syntax");
    reveal_strlit("ambiguous_framing");
    reveal_strlit("policy_rejected");
    reveal_strlit("route_missing");
    reveal_strlit("upstream_failure");
    reveal_strlit("timeout");
    reveal_strlit("implementation_disagreement");
    reveal_strlit("internal_failure");
    lemma_ascii_literal(code_of(category));
}

/// Every category has a code of its own: its code classifies to it, whatever else is known.
pub proof fn lemma_codes_are_distinct(category: OutcomeCategory)
    ensures
        category_of(code_of(category)) == Some(category),
{
    lemma_fingerprint(category);
    lemma_fingerprint(OutcomeCategory::Accepted);
    lemma_fingerprint(OutcomeCategory::ClientSyntax);
    lemma_fingerprint(OutcomeCategory::AmbiguousFraming);
    lemma_fingerprint(OutcomeCategory::PolicyRejected);
    lemma_fingerprint(OutcomeCategory::RouteMissing);
    lemma_fingerprint(OutcomeCategory::UpstreamFailure);
    lemma_fingerprint(OutcomeCategory::Timeout);
    lemma_fingerprint(OutcomeCategory::ImplementationDisagreement);
    lemma_fingerprint(OutcomeCategory::InternalFailure);
}

/// Only the accepted outcome counts as a success.
pub proof fn lemma_success_is_acceptance(code: Seq<char>, upstream_reached: bool)
    ensures
        classified(code, upstream_reached) matches Ok(outcome) ==> (outcome.success
            <==> code == "accepted"@),
{
    lemma_codes_are_distinct(OutcomeCategory::Accepted);
}

/// Reaching the upstream only ever narrows what is classified: a code that is classified after
/// the upstream was reached has the same classification before it.
pub proof fn lemma_reaching_upstream_narrows(code: Seq<char>)
    ensures
        classified(code, true) is Ok ==> classified(code, false) == classified(code, true),
        classified(code, false) is Err ==> classified(code, true) is Err,
{
}

} // verus!
