//! Telemetry outcomes: the nine codes, and which of them leave room for an upstream.

use vstd::prelude::*;
use crate::telemetry::{classified, lemma_codes_are_distinct};
use crate::types::{Fault, OutcomeCategory, TelemetryOutcome};

verus! {

/// Each of the nine codes names its category, and a request that never reached an upstream may
/// end in any of them. Only `accepted` is a success.
pub proof fn lemma_codes_named()
    ensures
        classified("accepted"@, false) == Ok::<TelemetryOutcome, Fault>(
            (TelemetryOutcome { category: OutcomeCategory::Accepted, success: true }),
        ),
        classified("client_syntax"@, false) == Ok::<TelemetryOutcome, Fault>(
            (TelemetryOutcome { category: OutcomeCategory::ClientSyntax, success: false }),
        ),
        classified("ambiguous_framing"@, false) == Ok::<TelemetryOutcome, Fault>(
            (TelemetryOutcome { category: OutcomeCategory::AmbiguousFraming, success: false }),
        ),
        classified("policy_rejected"@, false) == Ok::<TelemetryOutcome, Fault>(
            (TelemetryOutcome { category: OutcomeCategory::PolicyRejected, success: false }),
        ),
        classified("route_missing"@, false) == Ok::<TelemetryOutcome, Fault>(
            (TelemetryOutcome { category: OutcomeCategory::RouteMissing, success: false }),
        ),
        classified("upstream_failure"@, false) == Ok::<TelemetryOutcome, Fault>(
            (TelemetryOutcome { category: OutcomeCategory::UpstreamFailure, success: false }),
        ),
        classified("timeout"@, false) == Ok::<TelemetryOutcome, Fault>(
            (TelemetryOutcome { category: OutcomeCategory::Timeout, success: false }),
        ),
        classified("implementation_disagreement"@, false) == Ok::<TelemetryOutcome, Fault>(
            (TelemetryOutcome {
                category: OutcomeCategory::ImplementationDisagreement,
                success: false,
            }),
        ),
        classified("internal_failure"@, false) == Ok::<TelemetryOutcome, Fault>(
            (TelemetryOutcome { category: OutcomeCategory::InternalFailure, success: false }),
        ),
{
    lemma_codes_are_distinct(OutcomeCategory::Accepted);
    lemma_codes_are_distinct(OutcomeCategory::ClientSyntax);
    lemma_codes_are_distinct(OutcomeCategory::AmbiguousFraming);
    lemma_codes_are_distinct(OutcomeCategory::PolicyRejected);
    lemma_codes_are_distinct(OutcomeCategory::RouteMissing);
    lemma_codes_are_distinct(OutcomeCategory::UpstreamFailure);
    lemma_codes_are_distinct(OutcomeCategory::Timeout);
    lemma_codes_are_distinct(OutcomeCategory::ImplementationDisagreement);
    lemma_codes_are_distinct(OutcomeCategory::InternalFailure);
}

/// A text that is none of the nine codes is refused, and so is a code of a request that was
/// turned down before the upstream, where the upstream was reached: that one may end as accepted,
/// as an upstream failure, as a timeout or as an internal failure. Where both are told, the
/// upstream changes nothing in what is recorded.
pub proof fn lemma_codes_refused(code: Seq<char>, upstream_reached: bool)
    ensures
        classified(code, false) is Ok <==> code == "accepted"@ || code == "client_syntax"@ || code
            == "ambiguous_framing"@ || code == "policy_rejected"@ || code == "route_missing"@
            || code == "upstream_failure"@ || code == "timeout"@ || code
            == "implementation_disagreement"@ || code == "internal_failure"@,
        classified(code, true) is Ok <==> code == "accepted"@ || code == "upstream_failure"@ || code
            == "timeout"@ || code == "internal_failure"@,
        classified(code, true) is Ok ==> classified(code, true) == classified(code, false),
        classified(code, upstream_reached) is Err ==> classified(code, upstream_reached) == Err::<
            TelemetryOutcome,
            Fault,
        >(Fault::SerializationInvariant),
{
    lemma_codes_named();
}

} // verus!
