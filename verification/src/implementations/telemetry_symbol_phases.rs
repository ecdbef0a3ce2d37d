//! Telemetry classification by decoding a symbol and projecting it.

use vstd::prelude::*;
use crate::telemetry::permits_upstream as category_permits_upstream;
use crate::telemetry::{category_of, classified, recorded};
use crate::text::same_text;
use crate::types::{OutcomeCategory, PolyguardError, Result, TelemetryOutcome, outcome};

verus! {

#[derive(Clone, Copy)]
enum OutcomeSymbol {
    Accepted,
    ClientSyntax,
    AmbiguousFraming,
    PolicyRejected,
    RouteMissing,
    UpstreamFailure,
    Timeout,
    ImplementationDisagreement,
    InternalFailure,
}

impl OutcomeSymbol {
    spec fn category(self) -> OutcomeCategory {
        match self {
            OutcomeSymbol::Accepted => OutcomeCategory::Accepted,
            OutcomeSymbol::ClientSyntax => OutcomeCategory::ClientSyntax,
            OutcomeSymbol::AmbiguousFraming => OutcomeCategory::AmbiguousFraming,
            OutcomeSymbol::PolicyRejected => OutcomeCategory::PolicyRejected,
            OutcomeSymbol::RouteMissing => OutcomeCategory::RouteMissing,
            OutcomeSymbol::UpstreamFailure => OutcomeCategory::UpstreamFailure,
            OutcomeSymbol::Timeout => OutcomeCategory::Timeout,
            OutcomeSymbol::ImplementationDisagreement => OutcomeCategory::ImplementationDisagreement,
            OutcomeSymbol::InternalFailure => OutcomeCategory::InternalFailure,
        }
    }
}

fn decode_boundary(code: &str) -> (symbol: Result<OutcomeSymbol>)
    ensures
        match symbol {
            Ok(s) => category_of(code@) == Some(s.category()),
            Err(e) => category_of(code@) is None && e is SerializationInvariant,
        },
{
    if same_text(code, "accepted") {
        Ok(OutcomeSymbol::Accepted)
    } else if same_text(code, "client_syntax") {
        Ok(OutcomeSymbol::ClientSyntax)
    } else if same_text(code, "ambiguous_framing") {
        Ok(OutcomeSymbol::AmbiguousFraming)
    } else if same_text(code, "policy_rejected") {
        Ok(OutcomeSymbol::PolicyRejected)
    } else if same_text(code, "route_missing") {
        Ok(OutcomeSymbol::RouteMissing)
    } else if same_text(code, "upstream_failure") {
        Ok(OutcomeSymbol::UpstreamFailure)
    } else if same_text(code, "timeout") {
        Ok(OutcomeSymbol::Timeout)
    } else if same_text(code, "implementation_disagreement") {
        Ok(OutcomeSymbol::ImplementationDisagreement)
    } else if same_text(code, "internal_failure") {
        Ok(OutcomeSymbol::InternalFailure)
    } else {
        Err(PolyguardError::SerializationInvariant)
    }
}

fn permits_upstream(symbol: OutcomeSymbol) -> (permits: bool)
    ensures
        permits == category_permits_upstream(symbol.category()),
{
    matches!(
        symbol,
        OutcomeSymbol::Accepted
            | OutcomeSymbol::UpstreamFailure
            | OutcomeSymbol::Timeout
            | OutcomeSymbol::InternalFailure
    )
}

fn project(symbol: OutcomeSymbol) -> (projected: TelemetryOutcome)
    ensures
        projected == recorded(symbol.category()),
{
    let (category, success) = match symbol {
        OutcomeSymbol::Accepted => (OutcomeCategory::Accepted, true),
        OutcomeSymbol::ClientSyntax => (OutcomeCategory::ClientSyntax, false),
        OutcomeSymbol::AmbiguousFraming => (OutcomeCategory::AmbiguousFraming, false),
        OutcomeSymbol::PolicyRejected => (OutcomeCategory::PolicyRejected, false),
        OutcomeSymbol::RouteMissing => (OutcomeCategory::RouteMissing, false),
        OutcomeSymbol::UpstreamFailure => (OutcomeCategory::UpstreamFailure, false),
        OutcomeSymbol::Timeout => (OutcomeCategory::Timeout, false),
        OutcomeSymbol::ImplementationDisagreement => (
            OutcomeCategory::ImplementationDisagreement,
            false,
        ),
        OutcomeSymbol::InternalFailure => (OutcomeCategory::InternalFailure, false),
    };
    TelemetryOutcome { category, success }
}

/// Classify a validated internal symbol into fixed, privacy-safe telemetry.
pub fn classify_telemetry_outcome(code: &str, upstream_reached: bool) -> (result: Result<
    TelemetryOutcome,
>)
    ensures
        outcome(result) == classified(code@, upstream_reached),
{
    let symbol = decode_boundary(code)?;
    if upstream_reached && !permits_upstream(symbol) {
        return Err(PolyguardError::SerializationInvariant);
    }
    Ok(project(symbol))
}

} // verus!
