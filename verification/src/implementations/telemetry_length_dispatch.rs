//! Telemetry classification by rules for each length of code.

use vstd::prelude::*;
use crate::telemetry::{
    category_of, classified, code_of, fingerprint, lemma_codes_are_distinct, lemma_fingerprint,
    permits_upstream, recorded,
};
use crate::text::{same_text, utf8};
use crate::types::{OutcomeCategory, PolyguardError, Result, TelemetryOutcome};

verus! {

const LONGEST_CODE: usize = 27;

struct BoundedCode<'a>(&'a str);

impl<'a> BoundedCode<'a> {
    fn new(code: &'a str) -> (bounded: Result<Self>)
        ensures
            match bounded {
                Ok(b) => b.0@ == code@ && utf8(code@).len() <= LONGEST_CODE,
                Err(e) => utf8(code@).len() > LONGEST_CODE && e is SerializationInvariant,
            },
    {
        if code.as_bytes().len() > LONGEST_CODE {
            return Err(PolyguardError::SerializationInvariant);
        }
        Ok(BoundedCode(code))
    }

    fn text(&self) -> (text: &'a str)
        ensures
            text@ == self.0@,
    {
        self.0
    }
}

enum ReachabilityChecked {
    Any(TelemetryOutcome),
    BeforeUpstream(TelemetryOutcome),
}

impl ReachabilityChecked {
    /// The value that stands for an outcome of the category.
    spec fn of(category: OutcomeCategory) -> ReachabilityChecked {
        if permits_upstream(category) {
            ReachabilityChecked::Any(recorded(category))
        } else {
            ReachabilityChecked::BeforeUpstream(recorded(category))
        }
    }

    fn release(self, upstream_reached: bool) -> (released: Result<TelemetryOutcome>)
        ensures
            match self {
                ReachabilityChecked::Any(o) => released == Ok::<TelemetryOutcome, PolyguardError>(
                    o,
                ),
                ReachabilityChecked::BeforeUpstream(o) => if upstream_reached {
                    released matches Err(e) && e is SerializationInvariant
                } else {
                    released == Ok::<TelemetryOutcome, PolyguardError>(o)
                },
            },
    {
        if upstream_reached && matches!(self, ReachabilityChecked::BeforeUpstream(_)) {
            return Err(PolyguardError::SerializationInvariant);
        }
        match self {
            ReachabilityChecked::Any(outcome) | ReachabilityChecked::BeforeUpstream(outcome) => Ok(
                outcome,
            ),
        }
    }
}

fn outcome(category: OutcomeCategory, success: bool) -> (made: TelemetryOutcome)
    ensures
        made == (TelemetryOutcome { category, success }),
{
    TelemetryOutcome { category, success }
}

/// What the rule for codes of a given length makes of a code: the code's category, where the
/// category's code has that length.
spec fn ruled(code: Seq<char>, length: int) -> Option<ReachabilityChecked> {
    match category_of(code) {
        Some(category) => if fingerprint(category).0 == length {
            Some(ReachabilityChecked::of(category))
        } else {
            None
        },
        None => None,
    }
}

/// What the codes are, and how long.
proof fn lemma_all_codes()
    ensures
        forall|category: OutcomeCategory|
            category_of(#[trigger] code_of(category)) == Some(category),
{
    assert forall|category: OutcomeCategory|
        category_of(#[trigger] code_of(category)) == Some(category) by {
        lemma_codes_are_distinct(category);
    }
}

fn seven_byte_code(code: &str) -> (checked: Option<ReachabilityChecked>)
    ensures
        checked == ruled(code@, 7),
{
    proof {
        lemma_all_codes();
        assert(code_of(OutcomeCategory::Timeout) == "timeout"@);
    }
    if same_text(code, "timeout") {
        Some(ReachabilityChecked::Any(outcome(OutcomeCategory::Timeout, false)))
    } else {
        None
    }
}

fn eight_byte_code(code: &str) -> (checked: Option<ReachabilityChecked>)
    ensures
        checked == ruled(code@, 8),
{
    proof {
        lemma_all_codes();
        assert(code_of(OutcomeCategory::Accepted) == "accepted"@);
    }
    if same_text(code, "accepted") {
        Some(ReachabilityChecked::Any(outcome(OutcomeCategory::Accepted, true)))
    } else {
        None
    }
}

fn thirteen_byte_code(code: &str) -> (checked: Option<ReachabilityChecked>)
    ensures
        checked == ruled(code@, 13),
{
    proof {
        lemma_all_codes();
        assert(code_of(OutcomeCategory::ClientSyntax) == "client_syntax"@);
        assert(code_of(OutcomeCategory::RouteMissing) == "route_missing"@);
    }
    let category = if same_text(code, "client_syntax") {
        OutcomeCategory::ClientSyntax
    } else if same_text(code, "route_missing") {
        OutcomeCategory::RouteMissing
    } else {
        return None;
    };
    Some(ReachabilityChecked::BeforeUpstream(outcome(category, false)))
}

fn fifteen_byte_code(code: &str) -> (checked: Option<ReachabilityChecked>)
    ensures
        checked == ruled(code@, 15),
{
    proof {
        lemma_all_codes();
        assert(code_of(OutcomeCategory::PolicyRejected) == "policy_rejected"@);
    }
    if same_text(code, "policy_rejected") {
        Some(ReachabilityChecked::BeforeUpstream(outcome(OutcomeCategory::PolicyRejected, false)))
    } else {
        None
    }
}

fn sixteen_byte_code(code: &str) -> (checked: Option<ReachabilityChecked>)
    ensures
        checked == ruled(code@, 16),
{
    proof {
        lemma_all_codes();
        assert(code_of(OutcomeCategory::UpstreamFailure) == "upstream_failure"@);
        assert(code_of(OutcomeCategory::InternalFailure) == "internal_failure"@);
    }
    let category = if same_text(code, "upstream_failure") {
        OutcomeCategory::UpstreamFailure
    } else if same_text(code, "internal_failure") {
        OutcomeCategory::InternalFailure
    } else {
        return None;
    };
    Some(ReachabilityChecked::Any(outcome(category, false)))
}

fn seventeen_byte_code(code: &str) -> (checked: Option<ReachabilityChecked>)
    ensures
        checked == ruled(code@, 17),
{
    proof {
        lemma_all_codes();
        assert(code_of(OutcomeCategory::AmbiguousFraming) == "ambiguous_framing"@);
    }
    if same_text(code, "ambiguous_framing") {
        Some(
            ReachabilityChecked::BeforeUpstream(
                outcome(OutcomeCategory::AmbiguousFraming, false),
            ),
        )
    } else {
        None
    }
}

fn twenty_seven_byte_code(code: &str) -> (checked: Option<ReachabilityChecked>)
    ensures
        checked == ruled(code@, 27),
{
    proof {
        lemma_all_codes();
        assert(code_of(OutcomeCategory::ImplementationDisagreement)
            == "implementation_disagreement"@);
    }
    if same_text(code, "implementation_disagreement") {
        Some(
            ReachabilityChecked::BeforeUpstream(
                outcome(OutcomeCategory::ImplementationDisagreement, false),
            ),
        )
    } else {
        None
    }
}

/// The rule for the code's own length.
fn classify_by_length(code: &str) -> (checked: Option<ReachabilityChecked>)
    ensures
        checked == match category_of(code@) {
            Some(category) => Some(ReachabilityChecked::of(category)),
            None => None,
        },
{
    proof {
        if let Some(category) = category_of(code@) {
            lemma_fingerprint(category);
        }
    }
    match code.as_bytes().len() {
        7 => seven_byte_code(code),
        8 => eight_byte_code(code),
        13 => thirteen_byte_code(code),
        15 => fifteen_byte_code(code),
        16 => sixteen_byte_code(code),
        17 => seventeen_byte_code(code),
        27 => twenty_seven_byte_code(code),
        _ => None,
    }
}

/// Classify a bounded fixed code through length-specific rules.
pub fn classify_telemetry_outcome(code: &str, upstream_reached: bool) -> (result: Result<
    TelemetryOutcome,
>)
    ensures
        crate::types::outcome(result) == classified(code@, upstream_reached),
{
    proof {
        if let Some(category) = category_of(code@) {
            lemma_fingerprint(category);
        }
    }
    let bounded = BoundedCode::new(code)?;
    match classify_by_length(bounded.text()) {
        Some(checked) => checked.release(upstream_reached),
        None => Err(PolyguardError::SerializationInvariant),
    }
}

} // verus!
