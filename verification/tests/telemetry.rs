use polyform_polyguard::registry::evaluate_telemetry;
use polyform_polyguard::types::{OutcomeCategory, PolyguardError, TelemetryOutcome};

fn expect(code: &str, reached: bool, expected: Result<TelemetryOutcome, PolyguardError>) {
    let attempts = evaluate_telemetry(code, reached);
    assert_eq!(attempts.len(), 5);
    for attempt in attempts {
        assert_eq!(attempt.result, expected, "{} on {}", attempt.id, code);
    }
}

fn outcome(category: OutcomeCategory, success: bool) -> TelemetryOutcome {
    TelemetryOutcome { category, success }
}

#[test]
fn telemetry_accepted_counts_as_success() {
    expect("accepted", true, Ok(outcome(OutcomeCategory::Accepted, true)));
    expect("accepted", false, Ok(outcome(OutcomeCategory::Accepted, true)));
}

#[test]
fn telemetry_every_code_has_its_category() {
    expect("client_syntax", false, Ok(outcome(OutcomeCategory::ClientSyntax, false)));
    expect("ambiguous_framing", false, Ok(outcome(OutcomeCategory::AmbiguousFraming, false)));
    expect("policy_rejected", false, Ok(outcome(OutcomeCategory::PolicyRejected, false)));
    expect("route_missing", false, Ok(outcome(OutcomeCategory::RouteMissing, false)));
    expect("upstream_failure", false, Ok(outcome(OutcomeCategory::UpstreamFailure, false)));
    expect("timeout", false, Ok(outcome(OutcomeCategory::Timeout, false)));
    expect(
        "implementation_disagreement",
        false,
        Ok(outcome(OutcomeCategory::ImplementationDisagreement, false)),
    );
    expect("internal_failure", false, Ok(outcome(OutcomeCategory::InternalFailure, false)));
}

#[test]
fn telemetry_unknown_codes_are_refused() {
    for code in ["", "unknown", "/private", "Accepted", "accepted ", "timeou", "timeoutt"] {
        expect(code, false, Err(PolyguardError::SerializationInvariant));
        expect(code, true, Err(PolyguardError::SerializationInvariant));
    }
}

#[test]
fn telemetry_rejected_requests_do_not_reach_the_upstream() {
    expect("client_syntax", true, Err(PolyguardError::SerializationInvariant));
    expect("timeout", true, Ok(outcome(OutcomeCategory::Timeout, false)));
}
