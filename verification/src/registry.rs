//! The operations, their implementations, and running all implementations of an operation.

use vstd::prelude::*;
use crate::canonical_head::HeadInput;
use crate::chunk::Quoting;
use crate::forwarding::{ClientRule, ForwardingRules};
use crate::text::{same_text, utf8};
use crate::types::{
    BodyFraming, CanonicalRequestHead, ChunkMeta, EffectiveAuthority, ForwardingPolicy,
    ForwardingResult, HeaderBlock, NormalizedTarget, RequestLine, Result, RouteMatch, RouteRule,
    SanitizedHeaders, TelemetryOutcome, TrailerBlock, Verdict, fields_of, outcome, rules_of,
    texts_of,
};

verus! {

/// An operation on the request path.
#[derive(Clone, Copy, Debug, PartialEq, Eq, Structural)]
pub enum Operation {
    ParseRequestLine,
    ParseHeaderSection,
    DetermineBodyFraming,
    ParseChunkMetadata,
    ParseTrailerSection,
    NormalizeRequestTarget,
    ReconcileAuthority,
    RemoveHopByHopHeaders,
    ConstructCanonicalUpstreamHead,
    MatchRoute,
    ApplyForwardingPolicy,
    DecideUpgrade,
    ClassifyTelemetryOutcome,
}

pub open spec fn operation_name(operation: Operation) -> Seq<char> {
    match operation {
        Operation::ParseRequestLine => "parse_request_line"@,
        Operation::ParseHeaderSection => "parse_header_section"@,
        Operation::DetermineBodyFraming => "determine_body_framing"@,
        Operation::ParseChunkMetadata => "parse_chunk_metadata"@,
        Operation::ParseTrailerSection => "parse_trailer_section"@,
        Operation::NormalizeRequestTarget => "normalize_request_target"@,
        Operation::ReconcileAuthority => "reconcile_authority"@,
        Operation::RemoveHopByHopHeaders => "remove_hop_by_hop_headers"@,
        Operation::ConstructCanonicalUpstreamHead => "construct_canonical_upstream_head"@,
        Operation::MatchRoute => "match_route"@,
        Operation::ApplyForwardingPolicy => "apply_forwarding_policy"@,
        Operation::DecideUpgrade => "decide_upgrade"@,
        Operation::ClassifyTelemetryOutcome => "classify_telemetry_outcome"@,
    }
}

/// The operations in the order in which they are listed.
pub open spec fn operation_at(index: int) -> Operation {
    if index == 0 {
        Operation::ParseRequestLine
    } else if index == 1 {
        Operation::ParseHeaderSection
    } else if index == 2 {
        Operation::DetermineBodyFraming
    } else if index == 3 {
        Operation::ParseChunkMetadata
    } else if index == 4 {
        Operation::ParseTrailerSection
    } else if index == 5 {
        Operation::NormalizeRequestTarget
    } else if index == 6 {
        Operation::ReconcileAuthority
    } else if index == 7 {
        Operation::RemoveHopByHopHeaders
    } else if index == 8 {
        Operation::ConstructCanonicalUpstreamHead
    } else if index == 9 {
        Operation::MatchRoute
    } else if index == 10 {
        Operation::ApplyForwardingPolicy
    } else if index == 11 {
        Operation::DecideUpgrade
    } else {
        Operation::ClassifyTelemetryOutcome
    }
}

/// Where an operation stands in the list.
pub open spec fn position_of(operation: Operation) -> int {
    match operation {
        Operation::ParseRequestLine => 0,
        Operation::ParseHeaderSection => 1,
        Operation::DetermineBodyFraming => 2,
        Operation::ParseChunkMetadata => 3,
        Operation::ParseTrailerSection => 4,
        Operation::NormalizeRequestTarget => 5,
        Operation::ReconcileAuthority => 6,
        Operation::RemoveHopByHopHeaders => 7,
        Operation::ConstructCanonicalUpstreamHead => 8,
        Operation::MatchRoute => 9,
        Operation::ApplyForwardingPolicy => 10,
        Operation::DecideUpgrade => 11,
        Operation::ClassifyTelemetryOutcome => 12,
    }
}

impl Operation {
    pub fn name(self) -> (name: &'static str)
        ensures
            name@ == operation_name(self),
    {
        match self {
            Operation::ParseRequestLine => "parse_request_line",
            Operation::ParseHeaderSection => "parse_header_section",
            Operation::DetermineBodyFraming => "determine_body_framing",
            Operation::ParseChunkMetadata => "parse_chunk_metadata",
            Operation::ParseTrailerSection => "parse_trailer_section",
            Operation::NormalizeRequestTarget => "normalize_request_target",
            Operation::ReconcileAuthority => "reconcile_authority",
            Operation::RemoveHopByHopHeaders => "remove_hop_by_hop_headers",
            Operation::ConstructCanonicalUpstreamHead => "construct_canonical_upstream_head",
            Operation::MatchRoute => "match_route",
            Operation::ApplyForwardingPolicy => "apply_forwarding_policy",
            Operation::DecideUpgrade => "decide_upgrade",
            Operation::ClassifyTelemetryOutcome => "classify_telemetry_outcome",
        }
    }

    /// The operation at an index of the list.
    pub fn listed(index: usize) -> (operation: Operation)
        requires
            index < OPERATIONS,
        ensures
            operation == operation_at(index as int),
    {
        match index {
            0 => Operation::ParseRequestLine,
            1 => Operation::ParseHeaderSection,
            2 => Operation::DetermineBodyFraming,
            3 => Operation::ParseChunkMetadata,
            4 => Operation::ParseTrailerSection,
            5 => Operation::NormalizeRequestTarget,
            6 => Operation::ReconcileAuthority,
            7 => Operation::RemoveHopByHopHeaders,
            8 => Operation::ConstructCanonicalUpstreamHead,
            9 => Operation::MatchRoute,
            10 => Operation::ApplyForwardingPolicy,
            11 => Operation::DecideUpgrade,
            _ => Operation::ClassifyTelemetryOutcome,
        }
    }

    /// The operation with a name.
    pub fn named(name: &str) -> (operation: Option<Operation>)
        ensures
            match operation {
                Some(found) => operation_name(found) == name@,
                None => forall|other: Operation| #[trigger] operation_name(other) != name@,
            },
    {
        let mut index: usize = 0;
        while index < OPERATIONS
            invariant
                index <= OPERATIONS,
                forall|k: int|
                    0 <= k < index ==> operation_name(#[trigger] operation_at(k)) != name@,
            decreases OPERATIONS - index,
        {
            let operation: Operation = Operation::listed(index);
            if same_text(operation.name(), name) {
                return Some(operation);
            }
            index += 1;
        }
        proof {
            assert forall|other: Operation| #[trigger] operation_name(other) != name@ by {
                assert(operation_at(position_of(other)) == other);
            }
        }
        None
    }
}

/// How many operations there are, and how many implementations each has.
pub const OPERATIONS: usize = 13;

pub const VERSIONS: usize = 5;

/// The identifier and the source file of an implementation.
pub open spec fn entry(operation: Operation, version: int) -> (Seq<char>, Seq<char>) {
    match operation {
        Operation::ParseRequestLine => if version == 0 {
            ("request-line-state-pipeline"@, "src/implementations/request_line_state.rs"@)
        } else if version == 1 {
            ("request-line-direct-guards"@, "src/implementations/request_line_direct.rs"@)
        } else if version == 2 {
            ("request-line-rule-wrappers"@, "src/implementations/request_line_rule_wrappers.rs"@)
        } else if version == 3 {
            (
                "request-line-decision-machine"@,
                "src/implementations/request_line_decision_machine.rs"@,
            )
        } else {
            (
                "request-line-reverse-offsets"@,
                "src/implementations/request_line_reverse_offsets.rs"@,
            )
        },
        Operation::ParseHeaderSection => if version == 0 {
            ("header-section-typed-cursor"@, "src/implementations/header_typed_cursor.rs"@)
        } else if version == 1 {
            ("header-section-state-phases"@, "src/implementations/header_state_phases.rs"@)
        } else if version == 2 {
            ("header-section-decision-table"@, "src/implementations/header_decision_table.rs"@)
        } else if version == 3 {
            ("header-section-algebraic-lines"@, "src/implementations/header_algebraic_lines.rs"@)
        } else {
            (
                "header-section-transition-reducer"@,
                "src/implementations/header_transition_reducer.rs"@,
            )
        },
        Operation::DetermineBodyFraming => if version == 0 {
            ("body-framing-metadata-transition"@, "src/implementations/body_framing_transition.rs"@)
        } else if version == 1 {
            ("body-framing-direct-wrappers"@, "src/implementations/body_framing_direct.rs"@)
        } else if version == 2 {
            ("body-framing-rule-matrix"@, "src/implementations/body_framing_rule_matrix.rs"@)
        } else if version == 3 {
            ("body-framing-stream-machine"@, "src/implementations/body_framing_stream_machine.rs"@)
        } else {
            ("body-framing-bounded-domain"@, "src/implementations/body_framing_bounded_domain.rs"@)
        },
        Operation::ParseChunkMetadata => if version == 0 {
            ("chunk-metadata-rule-pipeline"@, "src/implementations/chunk_rule_pipeline.rs"@)
        } else if version == 1 {
            ("chunk-metadata-guarded-parts"@, "src/implementations/chunk_guarded_parts.rs"@)
        } else if version == 2 {
            ("chunk-metadata-invariant-spans"@, "src/implementations/chunk_invariant_spans.rs"@)
        } else if version == 3 {
            (
                "chunk-metadata-symbol-rule-iterator"@,
                "src/implementations/chunk_symbol_rule_iterator.rs"@,
            )
        } else {
            (
                "chunk-metadata-composable-segments"@,
                "src/implementations/chunk_composable_segments.rs"@,
            )
        },
        Operation::ParseTrailerSection => if version == 0 {
            ("trailer-section-invariant-trie"@, "src/implementations/trailer_invariant_trie.rs"@)
        } else if version == 1 {
            (
                "trailer-section-transition-phases"@,
                "src/implementations/trailer_transition_phases.rs"@,
            )
        } else if version == 2 {
            (
                "trailer-section-direct-decision-table"@,
                "src/implementations/trailer_direct_table.rs"@,
            )
        } else if version == 3 {
            (
                "trailer-section-validated-invariants"@,
                "src/implementations/trailer_validated_invariants.rs"@,
            )
        } else {
            ("trailer-section-event-automaton"@, "src/implementations/trailer_event_automaton.rs"@)
        },
        Operation::NormalizeRequestTarget => if version == 0 {
            ("request-target-rule-table"@, "src/implementations/request_target_rules.rs"@)
        } else if version == 1 {
            (
                "request-target-validated-pipeline"@,
                "src/implementations/request_target_validated_pipeline.rs"@,
            )
        } else if version == 2 {
            (
                "request-target-invariant-offsets"@,
                "src/implementations/request_target_invariant_offsets.rs"@,
            )
        } else if version == 3 {
            (
                "request-target-typed-rule-matrix"@,
                "src/implementations/request_target_typed_matrix.rs"@,
            )
        } else {
            (
                "request-target-composable-validators"@,
                "src/implementations/request_target_composable_validators.rs"@,
            )
        },
        Operation::ReconcileAuthority => if version == 0 {
            ("authority-validation-phases"@, "src/implementations/authority_phases.rs"@)
        } else if version == 1 {
            (
                "authority-invariant-decision-table"@,
                "src/implementations/authority_invariant_table.rs"@,
            )
        } else if version == 2 {
            (
                "authority-composable-components"@,
                "src/implementations/authority_composable_components.rs"@,
            )
        } else if version == 3 {
            ("authority-segment-pipeline"@, "src/implementations/authority_segment_pipeline.rs"@)
        } else {
            ("authority-endpoint-algebra"@, "src/implementations/authority_endpoint_algebra.rs"@)
        },
        Operation::RemoveHopByHopHeaders => if version == 0 {
            ("hop-by-hop-rule-table"@, "src/implementations/hop_by_hop_rule_table.rs"@)
        } else if version == 1 {
            ("hop-by-hop-composable-guards"@, "src/implementations/hop_by_hop_composable.rs"@)
        } else if version == 2 {
            (
                "hop-by-hop-typed-event-pipeline"@,
                "src/implementations/hop_by_hop_typed_pipeline.rs"@,
            )
        } else if version == 3 {
            ("hop-by-hop-sorted-rule-pipeline"@, "src/implementations/hop_by_hop_sorted_plan.rs"@)
        } else {
            ("hop-by-hop-token-trie"@, "src/implementations/hop_by_hop_token_trie.rs"@)
        },
        Operation::ConstructCanonicalUpstreamHead => if version == 0 {
            ("canonical-head-rule-phases"@, "src/implementations/canonical_head_rule_phases.rs"@)
        } else if version == 1 {
            (
                "canonical-head-composable-table"@,
                "src/implementations/canonical_head_composable_table.rs"@,
            )
        } else if version == 2 {
            (
                "canonical-head-compiled-plan"@,
                "src/implementations/canonical_head_compiled_plan.rs"@,
            )
        } else if version == 3 {
            (
                "canonical-head-dual-sink-rules"@,
                "src/implementations/canonical_head_dual_sink_rules.rs"@,
            )
        } else {
            ("canonical-head-reverse-fill"@, "src/implementations/canonical_head_reverse_fill.rs"@)
        },
        Operation::MatchRoute => if version == 0 {
            ("route-direct-domain"@, "src/implementations/route_direct.rs"@)
        } else if version == 1 {
            ("route-rule-validation-pipeline"@, "src/implementations/route_rule_pipeline.rs"@)
        } else if version == 2 {
            ("route-bounded-explicit-match"@, "src/implementations/route_bounded_match.rs"@)
        } else if version == 3 {
            ("route-typed-arithmetic"@, "src/implementations/route_typed_arithmetic.rs"@)
        } else {
            ("route-immutable-validation-table"@, "src/implementations/route_immutable_table.rs"@)
        },
        Operation::ApplyForwardingPolicy => if version == 0 {
            (
                "forwarding-policy-decision-table"@,
                "src/implementations/forwarding_decision_table.rs"@,
            )
        } else if version == 1 {
            ("forwarding-policy-direct-match"@, "src/implementations/forwarding_direct_match.rs"@)
        } else if version == 2 {
            (
                "forwarding-policy-transition-model"@,
                "src/implementations/forwarding_transition_model.rs"@,
            )
        } else if version == 3 {
            (
                "forwarding-policy-central-transition-table"@,
                "src/implementations/forwarding_central_transition.rs"@,
            )
        } else {
            (
                "forwarding-policy-primitive-boundary"@,
                "src/implementations/forwarding_primitive_boundary.rs"@,
            )
        },
        Operation::DecideUpgrade => if version == 0 {
            (
                "upgrade-composable-decision-table"@,
                "src/implementations/upgrade_composable_table.rs"@,
            )
        } else if version == 1 {
            ("upgrade-invariant-signature"@, "src/implementations/upgrade_invariant_signature.rs"@)
        } else if version == 2 {
            (
                "upgrade-observation-policy-table"@,
                "src/implementations/upgrade_observation_policy.rs"@,
            )
        } else if version == 3 {
            ("upgrade-obligation-algebra"@, "src/implementations/upgrade_obligation_algebra.rs"@)
        } else {
            (
                "upgrade-transformation-matrix"@,
                "src/implementations/upgrade_transformation_matrix.rs"@,
            )
        },
        Operation::ClassifyTelemetryOutcome => if version == 0 {
            ("telemetry-bounded-rule-table"@, "src/implementations/telemetry_rule_table.rs"@)
        } else if version == 1 {
            ("telemetry-symbol-phases"@, "src/implementations/telemetry_symbol_phases.rs"@)
        } else if version == 2 {
            ("telemetry-length-rule-dispatch"@, "src/implementations/telemetry_length_dispatch.rs"@)
        } else if version == 3 {
            ("telemetry-fingerprint-index"@, "src/implementations/telemetry_fingerprint_index.rs"@)
        } else {
            ("telemetry-word-composition"@, "src/implementations/telemetry_word_composition.rs"@)
        },
    }
}

/// The identifier and the source file of an implementation.
pub fn entry_of(operation: Operation, version: usize) -> (entry: (&'static str, &'static str))
    requires
        version < VERSIONS,
    ensures
        (entry.0@, entry.1@) == self::entry(operation, version as int),
{
    match operation {
        Operation::ParseRequestLine => match version {
            0 => ("request-line-state-pipeline", "src/implementations/request_line_state.rs"),
            1 => ("request-line-direct-guards", "src/implementations/request_line_direct.rs"),
            2 => (
                "request-line-rule-wrappers",
                "src/implementations/request_line_rule_wrappers.rs",
            ),
            3 => (
                "request-line-decision-machine",
                "src/implementations/request_line_decision_machine.rs",
            ),
            _ => (
                "request-line-reverse-offsets",
                "src/implementations/request_line_reverse_offsets.rs",
            ),
        },
        Operation::ParseHeaderSection => match version {
            0 => ("header-section-typed-cursor", "src/implementations/header_typed_cursor.rs"),
            1 => ("header-section-state-phases", "src/implementations/header_state_phases.rs"),
            2 => ("header-section-decision-table", "src/implementations/header_decision_table.rs"),
            3 => (
                "header-section-algebraic-lines",
                "src/implementations/header_algebraic_lines.rs",
            ),
            _ => (
                "header-section-transition-reducer",
                "src/implementations/header_transition_reducer.rs",
            ),
        },
        Operation::DetermineBodyFraming => match version {
            0 => (
                "body-framing-metadata-transition",
                "src/implementations/body_framing_transition.rs",
            ),
            1 => ("body-framing-direct-wrappers", "src/implementations/body_framing_direct.rs"),
            2 => ("body-framing-rule-matrix", "src/implementations/body_framing_rule_matrix.rs"),
            3 => (
                "body-framing-stream-machine",
                "src/implementations/body_framing_stream_machine.rs",
            ),
            _ => (
                "body-framing-bounded-domain",
                "src/implementations/body_framing_bounded_domain.rs",
            ),
        },
        Operation::ParseChunkMetadata => match version {
            0 => ("chunk-metadata-rule-pipeline", "src/implementations/chunk_rule_pipeline.rs"),
            1 => ("chunk-metadata-guarded-parts", "src/implementations/chunk_guarded_parts.rs"),
            2 => ("chunk-metadata-invariant-spans", "src/implementations/chunk_invariant_spans.rs"),
            3 => (
                "chunk-metadata-symbol-rule-iterator",
                "src/implementations/chunk_symbol_rule_iterator.rs",
            ),
            _ => (
                "chunk-metadata-composable-segments",
                "src/implementations/chunk_composable_segments.rs",
            ),
        },
        Operation::ParseTrailerSection => match version {
            0 => (
                "trailer-section-invariant-trie",
                "src/implementations/trailer_invariant_trie.rs",
            ),
            1 => (
                "trailer-section-transition-phases",
                "src/implementations/trailer_transition_phases.rs",
            ),
            2 => (
                "trailer-section-direct-decision-table",
                "src/implementations/trailer_direct_table.rs",
            ),
            3 => (
                "trailer-section-validated-invariants",
                "src/implementations/trailer_validated_invariants.rs",
            ),
            _ => (
                "trailer-section-event-automaton",
                "src/implementations/trailer_event_automaton.rs",
            ),
        },
        Operation::NormalizeRequestTarget => match version {
            0 => ("request-target-rule-table", "src/implementations/request_target_rules.rs"),
            1 => (
                "request-target-validated-pipeline",
                "src/implementations/request_target_validated_pipeline.rs",
            ),
            2 => (
                "request-target-invariant-offsets",
                "src/implementations/request_target_invariant_offsets.rs",
            ),
            3 => (
                "request-target-typed-rule-matrix",
                "src/implementations/request_target_typed_matrix.rs",
            ),
            _ => (
                "request-target-composable-validators",
                "src/implementations/request_target_composable_validators.rs",
            ),
        },
        Operation::ReconcileAuthority => match version {
            0 => ("authority-validation-phases", "src/implementations/authority_phases.rs"),
            1 => (
                "authority-invariant-decision-table",
                "src/implementations/authority_invariant_table.rs",
            ),
            2 => (
                "authority-composable-components",
                "src/implementations/authority_composable_components.rs",
            ),
            3 => (
                "authority-segment-pipeline",
                "src/implementations/authority_segment_pipeline.rs",
            ),
            _ => (
                "authority-endpoint-algebra",
                "src/implementations/authority_endpoint_algebra.rs",
            ),
        },
        Operation::RemoveHopByHopHeaders => match version {
            0 => ("hop-by-hop-rule-table", "src/implementations/hop_by_hop_rule_table.rs"),
            1 => ("hop-by-hop-composable-guards", "src/implementations/hop_by_hop_composable.rs"),
            2 => (
                "hop-by-hop-typed-event-pipeline",
                "src/implementations/hop_by_hop_typed_pipeline.rs",
            ),
            3 => (
                "hop-by-hop-sorted-rule-pipeline",
                "src/implementations/hop_by_hop_sorted_plan.rs",
            ),
            _ => ("hop-by-hop-token-trie", "src/implementations/hop_by_hop_token_trie.rs"),
        },
        Operation::ConstructCanonicalUpstreamHead => match version {
            0 => (
                "canonical-head-rule-phases",
                "src/implementations/canonical_head_rule_phases.rs",
            ),
            1 => (
                "canonical-head-composable-table",
                "src/implementations/canonical_head_composable_table.rs",
            ),
            2 => (
                "canonical-head-compiled-plan",
                "src/implementations/canonical_head_compiled_plan.rs",
            ),
            3 => (
                "canonical-head-dual-sink-rules",
                "src/implementations/canonical_head_dual_sink_rules.rs",
            ),
            _ => (
                "canonical-head-reverse-fill",
                "src/implementations/canonical_head_reverse_fill.rs",
            ),
        },
        Operation::MatchRoute => match version {
            0 => ("route-direct-domain", "src/implementations/route_direct.rs"),
            1 => ("route-rule-validation-pipeline", "src/implementations/route_rule_pipeline.rs"),
            2 => ("route-bounded-explicit-match", "src/implementations/route_bounded_match.rs"),
            3 => ("route-typed-arithmetic", "src/implementations/route_typed_arithmetic.rs"),
            _ => (
                "route-immutable-validation-table",
                "src/implementations/route_immutable_table.rs",
            ),
        },
        Operation::ApplyForwardingPolicy => match version {
            0 => (
                "forwarding-policy-decision-table",
                "src/implementations/forwarding_decision_table.rs",
            ),
            1 => (
                "forwarding-policy-direct-match",
                "src/implementations/forwarding_direct_match.rs",
            ),
            2 => (
                "forwarding-policy-transition-model",
                "src/implementations/forwarding_transition_model.rs",
            ),
            3 => (
                "forwarding-policy-central-transition-table",
                "src/implementations/forwarding_central_transition.rs",
            ),
            _ => (
                "forwarding-policy-primitive-boundary",
                "src/implementations/forwarding_primitive_boundary.rs",
            ),
        },
        Operation::DecideUpgrade => match version {
            0 => (
                "upgrade-composable-decision-table",
                "src/implementations/upgrade_composable_table.rs",
            ),
            1 => (
                "upgrade-invariant-signature",
                "src/implementations/upgrade_invariant_signature.rs",
            ),
            2 => (
                "upgrade-observation-policy-table",
                "src/implementations/upgrade_observation_policy.rs",
            ),
            3 => (
                "upgrade-obligation-algebra",
                "src/implementations/upgrade_obligation_algebra.rs",
            ),
            _ => (
                "upgrade-transformation-matrix",
                "src/implementations/upgrade_transformation_matrix.rs",
            ),
        },
        Operation::ClassifyTelemetryOutcome => match version {
            0 => ("telemetry-bounded-rule-table", "src/implementations/telemetry_rule_table.rs"),
            1 => ("telemetry-symbol-phases", "src/implementations/telemetry_symbol_phases.rs"),
            2 => (
                "telemetry-length-rule-dispatch",
                "src/implementations/telemetry_length_dispatch.rs",
            ),
            3 => (
                "telemetry-fingerprint-index",
                "src/implementations/telemetry_fingerprint_index.rs",
            ),
            _ => (
                "telemetry-word-composition",
                "src/implementations/telemetry_word_composition.rs",
            ),
        },
    }
}

/// Whether this library holds an implementation.
pub open spec fn is_provided(operation: Operation, version: int) -> bool {
    match operation {
        Operation::ParseTrailerSection => version != 1 && version != 3,
        Operation::DecideUpgrade => false,
        _ => true,
    }
}

pub fn provides(operation: Operation, version: usize) -> (provided: bool)
    ensures
        provided == is_provided(operation, version as int),
{
    match operation {
        Operation::ParseTrailerSection => version != 1 && version != 3,
        Operation::DecideUpgrade => false,
        _ => true,
    }
}

/// The source file of the first implementation from `from` on that has an identifier.
pub open spec fn described_from(id: Seq<char>, from: int) -> Option<Seq<char>>
    decreases OPERATIONS * VERSIONS - from,
{
    if from >= OPERATIONS * VERSIONS {
        None
    } else if entry(operation_at(from / VERSIONS as int), from % VERSIONS as int).0 == id {
        Some(entry(operation_at(from / VERSIONS as int), from % VERSIONS as int).1)
    } else {
        described_from(id, from + 1)
    }
}

/// The source file of an implementation.
pub open spec fn described(id: Seq<char>) -> Option<Seq<char>> {
    described_from(id, 0)
}

pub open spec fn text_of(text: Option<&'static str>) -> Option<Seq<char>> {
    match text {
        Some(text) => Some(text@),
        None => None,
    }
}

/// The source file of the implementation with an identifier.
pub fn descriptor(id: &str) -> (path: Option<&'static str>)
    ensures
        text_of(path) == described(id@),
{
    let mut index: usize = 0;
    while index < OPERATIONS * VERSIONS
        invariant
            index <= OPERATIONS * VERSIONS,
            described(id@) == described_from(id@, index as int),
        decreases OPERATIONS * VERSIONS - index,
    {
        let (candidate, path) = entry_of(Operation::listed(index / VERSIONS), index % VERSIONS);
        if same_text(candidate, id) {
            return Some(path);
        }
        index += 1;
    }
    None
}

/// Where an identifier is listed, told by its length and two of its characters.
spec fn place_of(id: Seq<char>) -> int {
    let first = id[0];
    let later = id[15];
    if id.len() == 19 {
        45
    } else if id.len() == 21 {
        if later == '-' {
            35
        } else {
            39
        }
    } else if id.len() == 22 {
        48
    } else if id.len() == 23 {
        61
    } else if id.len() == 24 {
        12
    } else if id.len() == 25 {
        25
    } else if id.len() == 26 {
        if first == 'r' && later == 'r' {
            1
        } else if first == 'r' && later == 'l' {
            2
        } else if first == 'a' && later == 'n' {
            33
        } else if first == 'a' && later == 'i' {
            34
        } else if first == 'c' && later == 'r' {
            40
        } else if first == 'u' && later == 'i' {
            58
        } else {
            64
        }
    } else if id.len() == 27 {
        if first == 'r' && later == 'a' {
            0
        } else if first == 'h' && later == 't' {
            5
        } else if first == 'h' && later == 's' {
            6
        } else if first == 'b' && later == 'r' {
            13
        } else if first == 'b' && later == 'u' {
            14
        } else if first == 'a' && later == 'a' {
            30
        } else if first == 'c' && later == 'r' {
            44
        } else if first == 'u' && later == 'n' {
            56
        } else {
            63
        }
    } else if id.len() == 28 {
        if first == 'r' && later == 'v' {
            4
        } else if first == 'b' && later == 'r' {
            11
        } else if first == 'c' && later == 'r' {
            15
        } else if first == 'c' && later == 'g' {
            16
        } else if first == 'h' && later == 'o' {
            36
        } else if first == 'c' && later == 'c' {
            42
        } else if first == 'r' && later == 'x' {
            47
        } else {
            60
        }
    } else if id.len() == 29 {
        if first == 'r' {
            3
        } else if first == 'h' {
            7
        } else {
            59
        }
    } else if id.len() == 30 {
        if first == 'h' && later == 'a' {
            8
        } else if first == 'c' && later == 'i' {
            17
        } else if first == 't' && later == '-' {
            20
        } else if first == 'c' && later == 'd' {
            43
        } else if first == 'r' && later == 'd' {
            46
        } else if first == 'f' && later == 'c' {
            51
        } else {
            62
        }
    } else if id.len() == 31 {
        if later == '-' {
            24
        } else if later == 's' {
            32
        } else if later == 'd' {
            37
        } else if later == 'e' {
            38
        } else {
            41
        }
    } else if id.len() == 32 {
        if first == 'b' && later == 't' {
            10
        } else if first == 'r' && later == 'i' {
            27
        } else if first == 'r' && later == 't' {
            28
        } else if first == 'r' && later == '-' {
            49
        } else if first == 'f' && later == 'c' {
            50
        } else {
            57
        }
    } else if id.len() == 33 {
        if first == 'h' {
            9
        } else if first == 't' {
            21
        } else if first == 'r' {
            26
        } else {
            55
        }
    } else if id.len() == 34 {
        if first == 'c' {
            19
        } else if first == 'a' {
            31
        } else {
            52
        }
    } else if id.len() == 35 {
        18
    } else if id.len() == 36 {
        if first == 't' {
            23
        } else if first == 'r' {
            29
        } else {
            54
        }
    } else if id.len() == 37 {
        22
    } else {
        53
    }
}

proof fn lemma_place_parse_request_line(version: int)
    requires
        0 <= version < VERSIONS,
    ensures
        place_of(entry(Operation::ParseRequestLine, version).0) == 0 + version,
{
    reveal_strlit("request-line-state-pipeline");
    reveal_strlit("request-line-direct-guards");
    reveal_strlit("request-line-rule-wrappers");
    reveal_strlit("request-line-decision-machine");
    reveal_strlit("request-line-reverse-offsets");
}

proof fn lemma_place_parse_header_section(version: int)
    requires
        0 <= version < VERSIONS,
    ensures
        place_of(entry(Operation::ParseHeaderSection, version).0) == 5 + version,
{
    reveal_strlit("header-section-typed-cursor");
    reveal_strlit("header-section-state-phases");
    reveal_strlit("header-section-decision-table");
    reveal_strlit("header-section-algebraic-lines");
    reveal_strlit("header-section-transition-reducer");
}

proof fn lemma_place_determine_body_framing(version: int)
    requires
        0 <= version < VERSIONS,
    ensures
        place_of(entry(Operation::DetermineBodyFraming, version).0) == 10 + version,
{
    reveal_strlit("body-framing-metadata-transition");
    reveal_strlit("body-framing-direct-wrappers");
    reveal_strlit("body-framing-rule-matrix");
    reveal_strlit("body-framing-stream-machine");
    reveal_strlit("body-framing-bounded-domain");
}

proof fn lemma_place_parse_chunk_metadata(version: int)
    requires
        0 <= version < VERSIONS,
    ensures
        place_of(entry(Operation::ParseChunkMetadata, version).0) == 15 + version,
{
    reveal_strlit("chunk-metadata-rule-pipeline");
    reveal_strlit("chunk-metadata-guarded-parts");
    reveal_strlit("chunk-metadata-invariant-spans");
    reveal_strlit("chunk-metadata-symbol-rule-iterator");
    reveal_strlit("chunk-metadata-composable-segments");
}

proof fn lemma_place_parse_trailer_section(version: int)
    requires
        0 <= version < VERSIONS,
    ensures
        place_of(entry(Operation::ParseTrailerSection, version).0) == 20 + version,
{
    reveal_strlit("trailer-section-invariant-trie");
    reveal_strlit("trailer-section-transition-phases");
    reveal_strlit("trailer-section-direct-decision-table");
    reveal_strlit("trailer-section-validated-invariants");
    reveal_strlit("trailer-section-event-automaton");
}

proof fn lemma_place_normalize_request_target(version: int)
    requires
        0 <= version < VERSIONS,
    ensures
        place_of(entry(Operation::NormalizeRequestTarget, version).0) == 25 + version,
{
    reveal_strlit("request-target-rule-table");
    reveal_strlit("request-target-validated-pipeline");
    reveal_strlit("request-target-invariant-offsets");
    reveal_strlit("request-target-typed-rule-matrix");
    reveal_strlit("request-target-composable-validators");
}

proof fn lemma_place_reconcile_authority(version: int)
    requires
        0 <= version < VERSIONS,
    ensures
        place_of(entry(Operation::ReconcileAuthority, version).0) == 30 + version,
{
    reveal_strlit("authority-validation-phases");
    reveal_strlit("authority-invariant-decision-table");
    reveal_strlit("authority-composable-components");
    reveal_strlit("authority-segment-pipeline");
    reveal_strlit("authority-endpoint-algebra");
}

proof fn lemma_place_remove_hop_by_hop_headers(version: int)
    requires
        0 <= version < VERSIONS,
    ensures
        place_of(entry(Operation::RemoveHopByHopHeaders, version).0) == 35 + version,
{
    reveal_strlit("hop-by-hop-rule-table");
    reveal_strlit("hop-by-hop-composable-guards");
    reveal_strlit("hop-by-hop-typed-event-pipeline");
    reveal_strlit("hop-by-hop-sorted-rule-pipeline");
    reveal_strlit("hop-by-hop-token-trie");
}

proof fn lemma_place_construct_canonical_upstream_head(version: int)
    requires
        0 <= version < VERSIONS,
    ensures
        place_of(entry(Operation::ConstructCanonicalUpstreamHead, version).0) == 40 + version,
{
    reveal_strlit("canonical-head-rule-phases");
    reveal_strlit("canonical-head-composable-table");
    reveal_strlit("canonical-head-compiled-plan");
    reveal_strlit("canonical-head-dual-sink-rules");
    reveal_strlit("canonical-head-reverse-fill");
}

proof fn lemma_place_match_route(version: int)
    requires
        0 <= version < VERSIONS,
    ensures
        place_of(entry(Operation::MatchRoute, version).0) == 45 + version,
{
    reveal_strlit("route-direct-domain");
    reveal_strlit("route-rule-validation-pipeline");
    reveal_strlit("route-bounded-explicit-match");
    reveal_strlit("route-typed-arithmetic");
    reveal_strlit("route-immutable-validation-table");
}

proof fn lemma_place_apply_forwarding_policy(version: int)
    requires
        0 <= version < VERSIONS,
    ensures
        place_of(entry(Operation::ApplyForwardingPolicy, version).0) == 50 + version,
{
    reveal_strlit("forwarding-policy-decision-table");
    reveal_strlit("forwarding-policy-direct-match");
    reveal_strlit("forwarding-policy-transition-model");
    reveal_strlit("forwarding-policy-central-transition-table");
    reveal_strlit("forwarding-policy-primitive-boundary");
}

proof fn lemma_place_decide_upgrade(version: int)
    requires
        0 <= version < VERSIONS,
    ensures
        place_of(entry(Operation::DecideUpgrade, version).0) == 55 + version,
{
    reveal_strlit("upgrade-composable-decision-table");
    reveal_strlit("upgrade-invariant-signature");
    reveal_strlit("upgrade-observation-policy-table");
    reveal_strlit("upgrade-obligation-algebra");
    reveal_strlit("upgrade-transformation-matrix");
}

proof fn lemma_place_classify_telemetry_outcome(version: int)
    requires
        0 <= version < VERSIONS,
    ensures
        place_of(entry(Operation::ClassifyTelemetryOutcome, version).0) == 60 + version,
{
    reveal_strlit("telemetry-bounded-rule-table");
    reveal_strlit("telemetry-symbol-phases");
    reveal_strlit("telemetry-length-rule-dispatch");
    reveal_strlit("telemetry-fingerprint-index");
    reveal_strlit("telemetry-word-composition");
}

/// Every implementation is listed where its identifier says.
proof fn lemma_place(operation: Operation, version: int)
    requires
        0 <= version < VERSIONS,
    ensures
        place_of(entry(operation, version).0) == position_of(operation) * VERSIONS + version,
{
    match operation {
        Operation::ParseRequestLine => lemma_place_parse_request_line(version),
        Operation::ParseHeaderSection => lemma_place_parse_header_section(version),
        Operation::DetermineBodyFraming => lemma_place_determine_body_framing(version),
        Operation::ParseChunkMetadata => lemma_place_parse_chunk_metadata(version),
        Operation::ParseTrailerSection => lemma_place_parse_trailer_section(version),
        Operation::NormalizeRequestTarget => lemma_place_normalize_request_target(version),
        Operation::ReconcileAuthority => lemma_place_reconcile_authority(version),
        Operation::RemoveHopByHopHeaders => lemma_place_remove_hop_by_hop_headers(version),
        Operation::ConstructCanonicalUpstreamHead => lemma_place_construct_canonical_upstream_head(version),
        Operation::MatchRoute => lemma_place_match_route(version),
        Operation::ApplyForwardingPolicy => lemma_place_apply_forwarding_policy(version),
        Operation::DecideUpgrade => lemma_place_decide_upgrade(version),
        Operation::ClassifyTelemetryOutcome => lemma_place_classify_telemetry_outcome(version),
    }
}

/// No two implementations share an identifier.
pub proof fn lemma_identifiers_distinct(
    one: Operation,
    one_version: int,
    other: Operation,
    other_version: int,
)
    requires
        0 <= one_version < VERSIONS,
        0 <= other_version < VERSIONS,
    ensures
        entry(one, one_version).0 == entry(other, other_version).0 <==> one == other && one_version
            == other_version,
{
    lemma_place(one, one_version);
    lemma_place(other, other_version);
    assert(operation_at(position_of(one)) == one);
    assert(operation_at(position_of(other)) == other);
}

proof fn lemma_described_from(id: Seq<char>, from: int, at: int)
    requires
        0 <= from <= at < OPERATIONS * VERSIONS,
        entry(operation_at(at / VERSIONS as int), at % VERSIONS as int).0 == id,
    ensures
        described_from(id, from) == Some(
            entry(operation_at(at / VERSIONS as int), at % VERSIONS as int).1,
        ),
    decreases at - from,
{
    if from < at {
        lemma_place(operation_at(at / VERSIONS as int), at % VERSIONS as int);
        lemma_place(operation_at(from / VERSIONS as int), from % VERSIONS as int);
        assert(position_of(operation_at(at / VERSIONS as int)) == at / VERSIONS as int);
        assert(position_of(operation_at(from / VERSIONS as int)) == from / VERSIONS as int);
        lemma_described_from(id, from + 1, at);
    }
}

/// Every listed implementation is described by its own source file: no identifier hides another.
pub proof fn lemma_entries_described(operation: Operation, version: int)
    requires
        0 <= version < VERSIONS,
    ensures
        described(entry(operation, version).0) == Some(entry(operation, version).1),
{
    let at = position_of(operation) * VERSIONS + version;
    assert(at / VERSIONS as int == position_of(operation) && at % VERSIONS as int == version)
        by (nonlinear_arith)
        requires
            at == position_of(operation) * VERSIONS + version,
            0 <= version < VERSIONS,
    ;
    assert(operation_at(position_of(operation)) == operation);
    lemma_described_from(entry(operation, version).0, 0, at);
}

/// No two operations share a name, so that a name is read back as the operation that has it.
pub proof fn lemma_names_distinct(one: Operation, other: Operation)
    ensures
        operation_name(one) == operation_name(other) <==> one == other,
{
    reveal_strlit("parse_request_line");
    reveal_strlit("parse_header_section");
    reveal_strlit("determine_body_framing");
    reveal_strlit("parse_chunk_metadata");
    reveal_strlit("parse_trailer_section");
    reveal_strlit("normalize_request_target");
    reveal_strlit("reconcile_authority");
    reveal_strlit("remove_hop_by_hop_headers");
    reveal_strlit("construct_canonical_upstream_head");
    reveal_strlit("match_route");
    reveal_strlit("apply_forwarding_policy");
    reveal_strlit("decide_upgrade");
    reveal_strlit("classify_telemetry_outcome");
    assert("parse_request_line"@.len() == 18);
    assert("parse_header_section"@.len() == 20);
    assert("determine_body_framing"@.len() == 22);
    assert("parse_chunk_metadata"@.len() == 20);
    assert("parse_trailer_section"@.len() == 21);
    assert("normalize_request_target"@.len() == 24);
    assert("reconcile_authority"@.len() == 19);
    assert("remove_hop_by_hop_headers"@.len() == 25);
    assert("construct_canonical_upstream_head"@.len() == 33);
    assert("match_route"@.len() == 11);
    assert("apply_forwarding_policy"@.len() == 23);
    assert("decide_upgrade"@.len() == 14);
    assert("classify_telemetry_outcome"@.len() == 26);
    assert("parse_header_section"@[6] != "parse_chunk_metadata"@[6]);
}

/// What one implementation made of an input.
pub struct Attempt<T> {
    pub id: &'static str,
    pub result: Result<T>,
}

pub open spec fn attempt_of<T: View>(attempt: Attempt<T>) -> (Seq<char>, Verdict<T::V>) {
    (attempt.id@, outcome(attempt.result))
}

pub open spec fn attempts_of<T: View>(attempts: Seq<Attempt<T>>) -> Seq<
    (Seq<char>, Verdict<T::V>),
> {
    attempts.map_values(|attempt: Attempt<T>| attempt_of(attempt))
}

/// Runs all implementations of `parse_request_line`.
pub fn evaluate_request_line(input: &[u8]) -> (attempts: Vec<Attempt<RequestLine>>)
    ensures
        attempts_of(attempts@) == seq![
            (entry(Operation::ParseRequestLine, 0).0, crate::request_line::parsed(input@)),
            (entry(Operation::ParseRequestLine, 1).0, crate::request_line::parsed(input@)),
            (entry(Operation::ParseRequestLine, 2).0, crate::request_line::parsed(input@)),
            (entry(Operation::ParseRequestLine, 3).0, crate::request_line::parsed(input@)),
            (entry(Operation::ParseRequestLine, 4).0, crate::request_line::parsed(input@)),
        ],
{
    let mut attempts: Vec<Attempt<RequestLine>> = Vec::new();
    attempts.push(
        Attempt {
            id: entry_of(Operation::ParseRequestLine, 0).0,
            result: crate::implementations::request_line_state::parse_request_line(input),
        },
    );
    attempts.push(
        Attempt {
            id: entry_of(Operation::ParseRequestLine, 1).0,
            result: crate::implementations::request_line_direct::parse_request_line(input),
        },
    );
    attempts.push(
        Attempt {
            id: entry_of(Operation::ParseRequestLine, 2).0,
            result: crate::implementations::request_line_rule_wrappers::parse_request_line(input),
        },
    );
    attempts.push(
        Attempt {
            id: entry_of(Operation::ParseRequestLine, 3).0,
            result: crate::implementations::request_line_decision_machine::parse_request_line(
                input,
            ),
        },
    );
    attempts.push(
        Attempt {
            id: entry_of(Operation::ParseRequestLine, 4).0,
            result: crate::implementations::request_line_reverse_offsets::parse_request_line(input),
        },
    );
    assert(attempts_of(attempts@) =~= seq![
        (entry(Operation::ParseRequestLine, 0).0, crate::request_line::parsed(input@)),
        (entry(Operation::ParseRequestLine, 1).0, crate::request_line::parsed(input@)),
        (entry(Operation::ParseRequestLine, 2).0, crate::request_line::parsed(input@)),
        (entry(Operation::ParseRequestLine, 3).0, crate::request_line::parsed(input@)),
        (entry(Operation::ParseRequestLine, 4).0, crate::request_line::parsed(input@)),
    ]);
    attempts
}

/// Runs all implementations of `parse_header_section`.
pub fn evaluate_header_section(input: &[u8]) -> (attempts: Vec<Attempt<HeaderBlock>>)
    ensures
        attempts_of(attempts@) == seq![
            (entry(Operation::ParseHeaderSection, 0).0, crate::header::parsed(input@)),
            (
                entry(Operation::ParseHeaderSection, 1).0,
                crate::header::parsed_whole(input@, false, true),
            ),
            (entry(Operation::ParseHeaderSection, 2).0, crate::header::parsed(input@)),
            (entry(Operation::ParseHeaderSection, 3).0, crate::header::parsed(input@)),
            (
                entry(Operation::ParseHeaderSection, 4).0,
                crate::header::parsed_whole(input@, true, false),
            ),
        ],
{
    let mut attempts: Vec<Attempt<HeaderBlock>> = Vec::new();
    attempts.push(
        Attempt {
            id: entry_of(Operation::ParseHeaderSection, 0).0,
            result: crate::implementations::header_typed_cursor::parse_header_section(input),
        },
    );
    attempts.push(
        Attempt {
            id: entry_of(Operation::ParseHeaderSection, 1).0,
            result: crate::implementations::header_state_phases::parse_header_section(input),
        },
    );
    attempts.push(
        Attempt {
            id: entry_of(Operation::ParseHeaderSection, 2).0,
            result: crate::implementations::header_decision_table::parse_header_section(input),
        },
    );
    attempts.push(
        Attempt {
            id: entry_of(Operation::ParseHeaderSection, 3).0,
            result: crate::implementations::header_algebraic_lines::parse_header_section(input),
        },
    );
    attempts.push(
        Attempt {
            id: entry_of(Operation::ParseHeaderSection, 4).0,
            result: crate::implementations::header_transition_reducer::parse_header_section(input),
        },
    );
    assert(attempts_of(attempts@) =~= seq![
        (entry(Operation::ParseHeaderSection, 0).0, crate::header::parsed(input@)),
        (
            entry(Operation::ParseHeaderSection, 1).0,
            crate::header::parsed_whole(input@, false, true),
        ),
        (entry(Operation::ParseHeaderSection, 2).0, crate::header::parsed(input@)),
        (entry(Operation::ParseHeaderSection, 3).0, crate::header::parsed(input@)),
        (
            entry(Operation::ParseHeaderSection, 4).0,
            crate::header::parsed_whole(input@, true, false),
        ),
    ]);
    attempts
}

/// Runs all implementations of `determine_body_framing`.
pub fn evaluate_body_framing(
    request: &RequestLine,
    headers: &HeaderBlock,
) -> (attempts: Vec<Attempt<BodyFraming>>)
    ensures
        attempts_of(attempts@) == seq![
            (
                entry(Operation::DetermineBodyFraming, 0).0,
                crate::body_framing::framing(headers@.fields),
            ),
            (
                entry(Operation::DetermineBodyFraming, 1).0,
                crate::body_framing::framing(headers@.fields),
            ),
            (
                entry(Operation::DetermineBodyFraming, 2).0,
                crate::body_framing::framing(headers@.fields),
            ),
            (
                entry(Operation::DetermineBodyFraming, 3).0,
                crate::body_framing::framing(headers@.fields),
            ),
            (
                entry(Operation::DetermineBodyFraming, 4).0,
                crate::body_framing::framing(headers@.fields),
            ),
        ],
{
    let mut attempts: Vec<Attempt<BodyFraming>> = Vec::new();
    attempts.push(
        Attempt {
            id: entry_of(Operation::DetermineBodyFraming, 0).0,
            result: crate::implementations::body_framing_transition::determine_body_framing(
                request,
                headers,
            ),
        },
    );
    attempts.push(
        Attempt {
            id: entry_of(Operation::DetermineBodyFraming, 1).0,
            result: crate::implementations::body_framing_direct::determine_body_framing(
                request,
                headers,
            ),
        },
    );
    attempts.push(
        Attempt {
            id: entry_of(Operation::DetermineBodyFraming, 2).0,
            result: crate::implementations::body_framing_rule_matrix::determine_body_framing(
                request,
                headers,
            ),
        },
    );
    attempts.push(
        Attempt {
            id: entry_of(Operation::DetermineBodyFraming, 3).0,
            result: crate::implementations::body_framing_stream_machine::determine_body_framing(
                request,
                headers,
            ),
        },
    );
    attempts.push(
        Attempt {
            id: entry_of(Operation::DetermineBodyFraming, 4).0,
            result: crate::implementations::body_framing_bounded_domain::determine_body_framing(
                request,
                headers,
            ),
        },
    );
    assert(attempts_of(attempts@) =~= seq![
        (
            entry(Operation::DetermineBodyFraming, 0).0,
            crate::body_framing::framing(headers@.fields),
        ),
        (
            entry(Operation::DetermineBodyFraming, 1).0,
            crate::body_framing::framing(headers@.fields),
        ),
        (
            entry(Operation::DetermineBodyFraming, 2).0,
            crate::body_framing::framing(headers@.fields),
        ),
        (
            entry(Operation::DetermineBodyFraming, 3).0,
            crate::body_framing::framing(headers@.fields),
        ),
        (
            entry(Operation::DetermineBodyFraming, 4).0,
            crate::body_framing::framing(headers@.fields),
        ),
    ]);
    attempts
}

/// Runs all implementations of `parse_chunk_metadata`.
pub fn evaluate_chunk_metadata(input: &[u8]) -> (attempts: Vec<Attempt<ChunkMeta>>)
    ensures
        attempts_of(attempts@) == seq![
            (
                entry(Operation::ParseChunkMetadata, 0).0,
                crate::chunk::parsed(input@, Quoting::EndFirst),
            ),
            (
                entry(Operation::ParseChunkMetadata, 1).0,
                crate::chunk::parsed(input@, Quoting::TextFirst),
            ),
            (
                entry(Operation::ParseChunkMetadata, 2).0,
                crate::chunk::parsed(input@, Quoting::TextFirst),
            ),
            (
                entry(Operation::ParseChunkMetadata, 3).0,
                crate::chunk::parsed(input@, Quoting::PrintableOnly),
            ),
            (entry(Operation::ParseChunkMetadata, 4).0, crate::chunk::parsed_in_segments(input@)),
        ],
{
    let mut attempts: Vec<Attempt<ChunkMeta>> = Vec::new();
    attempts.push(
        Attempt {
            id: entry_of(Operation::ParseChunkMetadata, 0).0,
            result: crate::implementations::chunk_rule_pipeline::parse_chunk_metadata(input),
        },
    );
    attempts.push(
        Attempt {
            id: entry_of(Operation::ParseChunkMetadata, 1).0,
            result: crate::implementations::chunk_guarded_parts::parse_chunk_metadata(input),
        },
    );
    attempts.push(
        Attempt {
            id: entry_of(Operation::ParseChunkMetadata, 2).0,
            result: crate::implementations::chunk_invariant_spans::parse_chunk_metadata(input),
        },
    );
    attempts.push(
        Attempt {
            id: entry_of(Operation::ParseChunkMetadata, 3).0,
            result: crate::implementations::chunk_symbol_rule_iterator::parse_chunk_metadata(input),
        },
    );
    attempts.push(
        Attempt {
            id: entry_of(Operation::ParseChunkMetadata, 4).0,
            result: crate::implementations::chunk_composable_segments::parse_chunk_metadata(input),
        },
    );
    assert(attempts_of(attempts@) =~= seq![
        (
            entry(Operation::ParseChunkMetadata, 0).0,
            crate::chunk::parsed(input@, Quoting::EndFirst),
        ),
        (
            entry(Operation::ParseChunkMetadata, 1).0,
            crate::chunk::parsed(input@, Quoting::TextFirst),
        ),
        (
            entry(Operation::ParseChunkMetadata, 2).0,
            crate::chunk::parsed(input@, Quoting::TextFirst),
        ),
        (
            entry(Operation::ParseChunkMetadata, 3).0,
            crate::chunk::parsed(input@, Quoting::PrintableOnly),
        ),
        (entry(Operation::ParseChunkMetadata, 4).0, crate::chunk::parsed_in_segments(input@)),
    ]);
    attempts
}

/// Runs all implementations of `parse_trailer_section`.
pub fn evaluate_trailer_section(
    input: &[u8],
    declared_names: &[String],
) -> (attempts: Vec<Attempt<TrailerBlock>>)
    ensures
        attempts_of(attempts@) == seq![
            (
                entry(Operation::ParseTrailerSection, 0).0,
                crate::trailer::parsed_framed(input@, texts_of(declared_names@)),
            ),
            (
                entry(Operation::ParseTrailerSection, 2).0,
                crate::trailer::parsed(input@, texts_of(declared_names@)),
            ),
            (
                entry(Operation::ParseTrailerSection, 4).0,
                crate::trailer::parsed_in_phases(input@, texts_of(declared_names@)),
            ),
        ],
{
    let mut attempts: Vec<Attempt<TrailerBlock>> = Vec::new();
    attempts.push(
        Attempt {
            id: entry_of(Operation::ParseTrailerSection, 0).0,
            result: crate::implementations::trailer_invariant_trie::parse_trailer_section(
                input,
                declared_names,
            ),
        },
    );
    attempts.push(
        Attempt {
            id: entry_of(Operation::ParseTrailerSection, 2).0,
            result: crate::implementations::trailer_direct_table::parse_trailer_section(
                input,
                declared_names,
            ),
        },
    );
    attempts.push(
        Attempt {
            id: entry_of(Operation::ParseTrailerSection, 4).0,
            result: crate::implementations::trailer_event_automaton::parse_trailer_section(
                input,
                declared_names,
            ),
        },
    );
    assert(attempts_of(attempts@) =~= seq![
        (
            entry(Operation::ParseTrailerSection, 0).0,
            crate::trailer::parsed_framed(input@, texts_of(declared_names@)),
        ),
        (
            entry(Operation::ParseTrailerSection, 2).0,
            crate::trailer::parsed(input@, texts_of(declared_names@)),
        ),
        (
            entry(Operation::ParseTrailerSection, 4).0,
            crate::trailer::parsed_in_phases(input@, texts_of(declared_names@)),
        ),
    ]);
    attempts
}

/// Runs all implementations of `normalize_request_target`.
pub fn evaluate_request_target(request: &RequestLine) -> (attempts: Vec<Attempt<NormalizedTarget>>)
    ensures
        attempts_of(attempts@) == seq![
            (
                entry(Operation::NormalizeRequestTarget, 0).0,
                crate::request_target::normalized(request@, true, false),
            ),
            (
                entry(Operation::NormalizeRequestTarget, 1).0,
                crate::request_target::normalized(request@, true, false),
            ),
            (
                entry(Operation::NormalizeRequestTarget, 2).0,
                crate::request_target::normalized(request@, true, true),
            ),
            (
                entry(Operation::NormalizeRequestTarget, 3).0,
                crate::request_target::normalized_leniently(request@),
            ),
            (
                entry(Operation::NormalizeRequestTarget, 4).0,
                crate::request_target::normalized(request@, false, false),
            ),
        ],
{
    let mut attempts: Vec<Attempt<NormalizedTarget>> = Vec::new();
    attempts.push(
        Attempt {
            id: entry_of(Operation::NormalizeRequestTarget, 0).0,
            result: crate::implementations::request_target_rules::normalize_request_target(request),
        },
    );
    attempts.push(
        Attempt {
            id: entry_of(Operation::NormalizeRequestTarget, 1).0,
            result: crate::implementations::request_target_validated_pipeline::normalize_request_target(
                request,
            ),
        },
    );
    attempts.push(
        Attempt {
            id: entry_of(Operation::NormalizeRequestTarget, 2).0,
            result: crate::implementations::request_target_invariant_offsets::normalize_request_target(
                request,
            ),
        },
    );
    attempts.push(
        Attempt {
            id: entry_of(Operation::NormalizeRequestTarget, 3).0,
            result: crate::implementations::request_target_typed_matrix::normalize_request_target(
                request,
            ),
        },
    );
    attempts.push(
        Attempt {
            id: entry_of(Operation::NormalizeRequestTarget, 4).0,
            result: crate::implementations::request_target_composable_validators::normalize_request_target(
                request,
            ),
        },
    );
    assert(attempts_of(attempts@) =~= seq![
        (
            entry(Operation::NormalizeRequestTarget, 0).0,
            crate::request_target::normalized(request@, true, false),
        ),
        (
            entry(Operation::NormalizeRequestTarget, 1).0,
            crate::request_target::normalized(request@, true, false),
        ),
        (
            entry(Operation::NormalizeRequestTarget, 2).0,
            crate::request_target::normalized(request@, true, true),
        ),
        (
            entry(Operation::NormalizeRequestTarget, 3).0,
            crate::request_target::normalized_leniently(request@),
        ),
        (
            entry(Operation::NormalizeRequestTarget, 4).0,
            crate::request_target::normalized(request@, false, false),
        ),
    ]);
    attempts
}

/// Runs all implementations of `reconcile_authority`.
pub fn evaluate_authority(
    target: &NormalizedTarget,
    headers: &HeaderBlock,
) -> (attempts: Vec<Attempt<EffectiveAuthority>>)
    ensures
        attempts_of(attempts@) == seq![
            (
                entry(Operation::ReconcileAuthority, 0).0,
                crate::authority::reconciled_in_phases(target@, headers@.fields),
            ),
            (
                entry(Operation::ReconcileAuthority, 1).0,
                crate::authority::reconciled(target@, headers@.fields),
            ),
            (
                entry(Operation::ReconcileAuthority, 2).0,
                crate::authority::reconciled_leniently(target@, headers@.fields),
            ),
            (
                entry(Operation::ReconcileAuthority, 3).0,
                crate::authority::reconciled(target@, headers@.fields),
            ),
            (
                entry(Operation::ReconcileAuthority, 4).0,
                crate::authority::reconciled(target@, headers@.fields),
            ),
        ],
{
    let mut attempts: Vec<Attempt<EffectiveAuthority>> = Vec::new();
    attempts.push(
        Attempt {
            id: entry_of(Operation::ReconcileAuthority, 0).0,
            result: crate::implementations::authority_phases::reconcile_authority(target, headers),
        },
    );
    attempts.push(
        Attempt {
            id: entry_of(Operation::ReconcileAuthority, 1).0,
            result: crate::implementations::authority_invariant_table::reconcile_authority(
                target,
                headers,
            ),
        },
    );
    attempts.push(
        Attempt {
            id: entry_of(Operation::ReconcileAuthority, 2).0,
            result: crate::implementations::authority_composable_components::reconcile_authority(
                target,
                headers,
            ),
        },
    );
    attempts.push(
        Attempt {
            id: entry_of(Operation::ReconcileAuthority, 3).0,
            result: crate::implementations::authority_segment_pipeline::reconcile_authority(
                target,
                headers,
            ),
        },
    );
    attempts.push(
        Attempt {
            id: entry_of(Operation::ReconcileAuthority, 4).0,
            result: crate::implementations::authority_endpoint_algebra::reconcile_authority(
                target,
                headers,
            ),
        },
    );
    assert(attempts_of(attempts@) =~= seq![
        (
            entry(Operation::ReconcileAuthority, 0).0,
            crate::authority::reconciled_in_phases(target@, headers@.fields),
        ),
        (
            entry(Operation::ReconcileAuthority, 1).0,
            crate::authority::reconciled(target@, headers@.fields),
        ),
        (
            entry(Operation::ReconcileAuthority, 2).0,
            crate::authority::reconciled_leniently(target@, headers@.fields),
        ),
        (
            entry(Operation::ReconcileAuthority, 3).0,
            crate::authority::reconciled(target@, headers@.fields),
        ),
        (
            entry(Operation::ReconcileAuthority, 4).0,
            crate::authority::reconciled(target@, headers@.fields),
        ),
    ]);
    attempts
}

/// Runs all implementations of `remove_hop_by_hop_headers`.
pub fn evaluate_hop_by_hop(headers: &HeaderBlock) -> (attempts: Vec<Attempt<SanitizedHeaders>>)
    ensures
        attempts_of(attempts@) == seq![
            (
                entry(Operation::RemoveHopByHopHeaders, 0).0,
                crate::hop_by_hop::sanitized(headers@.fields),
            ),
            (
                entry(Operation::RemoveHopByHopHeaders, 1).0,
                crate::hop_by_hop::sanitized(headers@.fields),
            ),
            (
                entry(Operation::RemoveHopByHopHeaders, 2).0,
                crate::hop_by_hop::sanitized(headers@.fields),
            ),
            (
                entry(Operation::RemoveHopByHopHeaders, 3).0,
                crate::hop_by_hop::sanitized(headers@.fields),
            ),
            (
                entry(Operation::RemoveHopByHopHeaders, 4).0,
                crate::hop_by_hop::sanitized(headers@.fields),
            ),
        ],
{
    let mut attempts: Vec<Attempt<SanitizedHeaders>> = Vec::new();
    attempts.push(
        Attempt {
            id: entry_of(Operation::RemoveHopByHopHeaders, 0).0,
            result: crate::implementations::hop_by_hop_rule_table::remove_hop_by_hop_headers(
                headers,
            ),
        },
    );
    attempts.push(
        Attempt {
            id: entry_of(Operation::RemoveHopByHopHeaders, 1).0,
            result: crate::implementations::hop_by_hop_composable::remove_hop_by_hop_headers(
                headers,
            ),
        },
    );
    attempts.push(
        Attempt {
            id: entry_of(Operation::RemoveHopByHopHeaders, 2).0,
            result: crate::implementations::hop_by_hop_typed_pipeline::remove_hop_by_hop_headers(
                headers,
            ),
        },
    );
    attempts.push(
        Attempt {
            id: entry_of(Operation::RemoveHopByHopHeaders, 3).0,
            result: crate::implementations::hop_by_hop_sorted_plan::remove_hop_by_hop_headers(
                headers,
            ),
        },
    );
    attempts.push(
        Attempt {
            id: entry_of(Operation::RemoveHopByHopHeaders, 4).0,
            result: crate::implementations::hop_by_hop_token_trie::remove_hop_by_hop_headers(
                headers,
            ),
        },
    );
    assert(attempts_of(attempts@) =~= seq![
        (
            entry(Operation::RemoveHopByHopHeaders, 0).0,
            crate::hop_by_hop::sanitized(headers@.fields),
        ),
        (
            entry(Operation::RemoveHopByHopHeaders, 1).0,
            crate::hop_by_hop::sanitized(headers@.fields),
        ),
        (
            entry(Operation::RemoveHopByHopHeaders, 2).0,
            crate::hop_by_hop::sanitized(headers@.fields),
        ),
        (
            entry(Operation::RemoveHopByHopHeaders, 3).0,
            crate::hop_by_hop::sanitized(headers@.fields),
        ),
        (
            entry(Operation::RemoveHopByHopHeaders, 4).0,
            crate::hop_by_hop::sanitized(headers@.fields),
        ),
    ]);
    attempts
}

/// Runs all implementations of `construct_canonical_upstream_head`.
pub fn evaluate_canonical_head(
    method: &str,
    target: &NormalizedTarget,
    authority: &EffectiveAuthority,
    headers: &SanitizedHeaders,
    framing: &BodyFraming,
    forwarding: &ForwardingResult,
) -> (attempts: Vec<Attempt<CanonicalRequestHead>>)
    ensures
        attempts_of(attempts@) == seq![
            (entry(Operation::ConstructCanonicalUpstreamHead, 0).0, crate::canonical_head::constructed(
                (HeadInput {
                    method: utf8(method@),
                    target: target@,
                    authority: authority@,
                    headers: headers@,
                    framing: *framing,
                    forwarding: forwarding@,
                }),
                false,
            )),
            (entry(Operation::ConstructCanonicalUpstreamHead, 1).0, crate::canonical_head::constructed(
                (HeadInput {
                    method: utf8(method@),
                    target: target@,
                    authority: authority@,
                    headers: headers@,
                    framing: *framing,
                    forwarding: forwarding@,
                }),
                false,
            )),
            (entry(Operation::ConstructCanonicalUpstreamHead, 2).0, crate::canonical_head::constructed(
                (HeadInput {
                    method: utf8(method@),
                    target: target@,
                    authority: authority@,
                    headers: headers@,
                    framing: *framing,
                    forwarding: forwarding@,
                }),
                false,
            )),
            (entry(Operation::ConstructCanonicalUpstreamHead, 3).0, crate::canonical_head::constructed(
                (HeadInput {
                    method: utf8(method@),
                    target: target@,
                    authority: authority@,
                    headers: headers@,
                    framing: *framing,
                    forwarding: forwarding@,
                }),
                true,
            )),
            (entry(Operation::ConstructCanonicalUpstreamHead, 4).0, crate::canonical_head::constructed(
                (HeadInput {
                    method: utf8(method@),
                    target: target@,
                    authority: authority@,
                    headers: headers@,
                    framing: *framing,
                    forwarding: forwarding@,
                }),
                false,
            )),
        ],
{
    let mut attempts: Vec<Attempt<CanonicalRequestHead>> = Vec::new();
    attempts.push(
        Attempt {
            id: entry_of(Operation::ConstructCanonicalUpstreamHead, 0).0,
            result: crate::implementations::canonical_head_rule_phases::construct_canonical_upstream_head(
                method,
                target,
                authority,
                headers,
                framing,
                forwarding,
            ),
        },
    );
    attempts.push(
        Attempt {
            id: entry_of(Operation::ConstructCanonicalUpstreamHead, 1).0,
            result: crate::implementations::canonical_head_composable_table::construct_canonical_upstream_head(
                method,
                target,
                authority,
                headers,
                framing,
                forwarding,
            ),
        },
    );
    attempts.push(
        Attempt {
            id: entry_of(Operation::ConstructCanonicalUpstreamHead, 2).0,
            result: crate::implementations::canonical_head_compiled_plan::construct_canonical_upstream_head(
                method,
                target,
                authority,
                headers,
                framing,
                forwarding,
            ),
        },
    );
    attempts.push(
        Attempt {
            id: entry_of(Operation::ConstructCanonicalUpstreamHead, 3).0,
            result: crate::implementations::canonical_head_dual_sink_rules::construct_canonical_upstream_head(
                method,
                target,
                authority,
                headers,
                framing,
                forwarding,
            ),
        },
    );
    attempts.push(
        Attempt {
            id: entry_of(Operation::ConstructCanonicalUpstreamHead, 4).0,
            result: crate::implementations::canonical_head_reverse_fill::construct_canonical_upstream_head(
                method,
                target,
                authority,
                headers,
                framing,
                forwarding,
            ),
        },
    );
    assert(attempts_of(attempts@) =~= seq![
        (entry(Operation::ConstructCanonicalUpstreamHead, 0).0, crate::canonical_head::constructed(
                (HeadInput {
                    method: utf8(method@),
                    target: target@,
                    authority: authority@,
                    headers: headers@,
                    framing: *framing,
                    forwarding: forwarding@,
                }),
                false,
            )),
        (entry(Operation::ConstructCanonicalUpstreamHead, 1).0, crate::canonical_head::constructed(
                (HeadInput {
                    method: utf8(method@),
                    target: target@,
                    authority: authority@,
                    headers: headers@,
                    framing: *framing,
                    forwarding: forwarding@,
                }),
                false,
            )),
        (entry(Operation::ConstructCanonicalUpstreamHead, 2).0, crate::canonical_head::constructed(
                (HeadInput {
                    method: utf8(method@),
                    target: target@,
                    authority: authority@,
                    headers: headers@,
                    framing: *framing,
                    forwarding: forwarding@,
                }),
                false,
            )),
        (entry(Operation::ConstructCanonicalUpstreamHead, 3).0, crate::canonical_head::constructed(
                (HeadInput {
                    method: utf8(method@),
                    target: target@,
                    authority: authority@,
                    headers: headers@,
                    framing: *framing,
                    forwarding: forwarding@,
                }),
                true,
            )),
        (entry(Operation::ConstructCanonicalUpstreamHead, 4).0, crate::canonical_head::constructed(
                (HeadInput {
                    method: utf8(method@),
                    target: target@,
                    authority: authority@,
                    headers: headers@,
                    framing: *framing,
                    forwarding: forwarding@,
                }),
                false,
            )),
    ]);
    attempts
}

/// Runs all implementations of `match_route`.
pub fn evaluate_route(
    authority: &EffectiveAuthority,
    target: &NormalizedTarget,
    routes: &[RouteRule],
) -> (attempts: Vec<Attempt<RouteMatch>>)
    ensures
        attempts_of(attempts@) == seq![
            (
                entry(Operation::MatchRoute, 0).0,
                crate::route::routed(authority@, target@, rules_of(routes@), true),
            ),
            (
                entry(Operation::MatchRoute, 1).0,
                crate::route::routed_in_passes(authority@, target@, rules_of(routes@), true),
            ),
            (
                entry(Operation::MatchRoute, 2).0,
                crate::route::routed(authority@, target@, rules_of(routes@), true),
            ),
            (
                entry(Operation::MatchRoute, 3).0,
                crate::route::routed(authority@, target@, rules_of(routes@), false),
            ),
            (
                entry(Operation::MatchRoute, 4).0,
                crate::route::routed(authority@, target@, rules_of(routes@), false),
            ),
        ],
{
    let mut attempts: Vec<Attempt<RouteMatch>> = Vec::new();
    attempts.push(
        Attempt {
            id: entry_of(Operation::MatchRoute, 0).0,
            result: crate::implementations::route_direct::match_route(authority, target, routes),
        },
    );
    attempts.push(
        Attempt {
            id: entry_of(Operation::MatchRoute, 1).0,
            result: crate::implementations::route_rule_pipeline::match_route(
                authority,
                target,
                routes,
            ),
        },
    );
    attempts.push(
        Attempt {
            id: entry_of(Operation::MatchRoute, 2).0,
            result: crate::implementations::route_bounded_match::match_route(
                authority,
                target,
                routes,
            ),
        },
    );
    attempts.push(
        Attempt {
            id: entry_of(Operation::MatchRoute, 3).0,
            result: crate::implementations::route_typed_arithmetic::match_route(
                authority,
                target,
                routes,
            ),
        },
    );
    attempts.push(
        Attempt {
            id: entry_of(Operation::MatchRoute, 4).0,
            result: crate::implementations::route_immutable_table::match_route(
                authority,
                target,
                routes,
            ),
        },
    );
    assert(attempts_of(attempts@) =~= seq![
        (
            entry(Operation::MatchRoute, 0).0,
            crate::route::routed(authority@, target@, rules_of(routes@), true),
        ),
        (
            entry(Operation::MatchRoute, 1).0,
            crate::route::routed_in_passes(authority@, target@, rules_of(routes@), true),
        ),
        (
            entry(Operation::MatchRoute, 2).0,
            crate::route::routed(authority@, target@, rules_of(routes@), true),
        ),
        (
            entry(Operation::MatchRoute, 3).0,
            crate::route::routed(authority@, target@, rules_of(routes@), false),
        ),
        (
            entry(Operation::MatchRoute, 4).0,
            crate::route::routed(authority@, target@, rules_of(routes@), false),
        ),
    ]);
    attempts
}

/// Runs all implementations of `apply_forwarding_policy`.
pub fn evaluate_forwarding(
    policy: &ForwardingPolicy,
    headers: &HeaderBlock,
) -> (attempts: Vec<Attempt<ForwardingResult>>)
    ensures
        attempts_of(attempts@) == seq![
            (entry(Operation::ApplyForwardingPolicy, 0).0, crate::forwarding::applied(
                policy@,
                fields_of(headers.fields@),
                (ForwardingRules {
                    client: ClientRule::Rendered,
                    any_case: false,
                    repeat_first: true,
                    hop_alone: true,
                }),
            )),
            (entry(Operation::ApplyForwardingPolicy, 1).0, crate::forwarding::applied(
                policy@,
                fields_of(headers.fields@),
                (ForwardingRules {
                    client: ClientRule::Canonical,
                    any_case: false,
                    repeat_first: true,
                    hop_alone: true,
                }),
            )),
            (entry(Operation::ApplyForwardingPolicy, 2).0, crate::forwarding::applied(
                policy@,
                fields_of(headers.fields@),
                (ForwardingRules {
                    client: ClientRule::AsGiven,
                    any_case: true,
                    repeat_first: false,
                    hop_alone: false,
                }),
            )),
            (entry(Operation::ApplyForwardingPolicy, 3).0, crate::forwarding::applied(
                policy@,
                fields_of(headers.fields@),
                (ForwardingRules {
                    client: ClientRule::Canonical,
                    any_case: false,
                    repeat_first: false,
                    hop_alone: false,
                }),
            )),
            (entry(Operation::ApplyForwardingPolicy, 4).0, crate::forwarding::applied(
                policy@,
                fields_of(headers.fields@),
                (ForwardingRules {
                    client: ClientRule::AsGiven,
                    any_case: false,
                    repeat_first: false,
                    hop_alone: true,
                }),
            )),
        ],
{
    let mut attempts: Vec<Attempt<ForwardingResult>> = Vec::new();
    attempts.push(
        Attempt {
            id: entry_of(Operation::ApplyForwardingPolicy, 0).0,
            result: crate::implementations::forwarding_decision_table::apply_forwarding_policy(
                policy,
                headers,
            ),
        },
    );
    attempts.push(
        Attempt {
            id: entry_of(Operation::ApplyForwardingPolicy, 1).0,
            result: crate::implementations::forwarding_direct_match::apply_forwarding_policy(
                policy,
                headers,
            ),
        },
    );
    attempts.push(
        Attempt {
            id: entry_of(Operation::ApplyForwardingPolicy, 2).0,
            result: crate::implementations::forwarding_transition_model::apply_forwarding_policy(
                policy,
                headers,
            ),
        },
    );
    attempts.push(
        Attempt {
            id: entry_of(Operation::ApplyForwardingPolicy, 3).0,
            result: crate::implementations::forwarding_central_transition::apply_forwarding_policy(
                policy,
                headers,
            ),
        },
    );
    attempts.push(
        Attempt {
            id: entry_of(Operation::ApplyForwardingPolicy, 4).0,
            result: crate::implementations::forwarding_primitive_boundary::apply_forwarding_policy(
                policy,
                headers,
            ),
        },
    );
    assert(attempts_of(attempts@) =~= seq![
        (entry(Operation::ApplyForwardingPolicy, 0).0, crate::forwarding::applied(
                policy@,
                fields_of(headers.fields@),
                (ForwardingRules {
                    client: ClientRule::Rendered,
                    any_case: false,
                    repeat_first: true,
                    hop_alone: true,
                }),
            )),
        (entry(Operation::ApplyForwardingPolicy, 1).0, crate::forwarding::applied(
                policy@,
                fields_of(headers.fields@),
                (ForwardingRules {
                    client: ClientRule::Canonical,
                    any_case: false,
                    repeat_first: true,
                    hop_alone: true,
                }),
            )),
        (entry(Operation::ApplyForwardingPolicy, 2).0, crate::forwarding::applied(
                policy@,
                fields_of(headers.fields@),
                (ForwardingRules {
                    client: ClientRule::AsGiven,
                    any_case: true,
                    repeat_first: false,
                    hop_alone: false,
                }),
            )),
        (entry(Operation::ApplyForwardingPolicy, 3).0, crate::forwarding::applied(
                policy@,
                fields_of(headers.fields@),
                (ForwardingRules {
                    client: ClientRule::Canonical,
                    any_case: false,
                    repeat_first: false,
                    hop_alone: false,
                }),
            )),
        (entry(Operation::ApplyForwardingPolicy, 4).0, crate::forwarding::applied(
                policy@,
                fields_of(headers.fields@),
                (ForwardingRules {
                    client: ClientRule::AsGiven,
                    any_case: false,
                    repeat_first: false,
                    hop_alone: true,
                }),
            )),
    ]);
    attempts
}

/// Runs all implementations of `classify_telemetry_outcome`.
pub fn evaluate_telemetry(
    code: &str,
    upstream_reached: bool,
) -> (attempts: Vec<Attempt<TelemetryOutcome>>)
    ensures
        attempts_of(attempts@) == seq![
            (
                entry(Operation::ClassifyTelemetryOutcome, 0).0,
                crate::telemetry::classified(code@, upstream_reached),
            ),
            (
                entry(Operation::ClassifyTelemetryOutcome, 1).0,
                crate::telemetry::classified(code@, upstream_reached),
            ),
            (
                entry(Operation::ClassifyTelemetryOutcome, 2).0,
                crate::telemetry::classified(code@, upstream_reached),
            ),
            (
                entry(Operation::ClassifyTelemetryOutcome, 3).0,
                crate::telemetry::classified(code@, upstream_reached),
            ),
            (
                entry(Operation::ClassifyTelemetryOutcome, 4).0,
                crate::telemetry::classified(code@, upstream_reached),
            ),
        ],
{
    let mut attempts: Vec<Attempt<TelemetryOutcome>> = Vec::new();
    attempts.push(
        Attempt {
            id: entry_of(Operation::ClassifyTelemetryOutcome, 0).0,
            result: crate::implementations::telemetry_rule_table::classify_telemetry_outcome(
                code,
                upstream_reached,
            ),
        },
    );
    attempts.push(
        Attempt {
            id: entry_of(Operation::ClassifyTelemetryOutcome, 1).0,
            result: crate::implementations::telemetry_symbol_phases::classify_telemetry_outcome(
                code,
                upstream_reached,
            ),
        },
    );
    attempts.push(
        Attempt {
            id: entry_of(Operation::ClassifyTelemetryOutcome, 2).0,
            result: crate::implementations::telemetry_length_dispatch::classify_telemetry_outcome(
                code,
                upstream_reached,
            ),
        },
    );
    attempts.push(
        Attempt {
            id: entry_of(Operation::ClassifyTelemetryOutcome, 3).0,
            result: crate::implementations::telemetry_fingerprint_index::classify_telemetry_outcome(
                code,
                upstream_reached,
            ),
        },
    );
    attempts.push(
        Attempt {
            id: entry_of(Operation::ClassifyTelemetryOutcome, 4).0,
            result: crate::implementations::telemetry_word_composition::classify_telemetry_outcome(
                code,
                upstream_reached,
            ),
        },
    );
    assert(attempts_of(attempts@) =~= seq![
        (
            entry(Operation::ClassifyTelemetryOutcome, 0).0,
            crate::telemetry::classified(code@, upstream_reached),
        ),
        (
            entry(Operation::ClassifyTelemetryOutcome, 1).0,
            crate::telemetry::classified(code@, upstream_reached),
        ),
        (
            entry(Operation::ClassifyTelemetryOutcome, 2).0,
            crate::telemetry::classified(code@, upstream_reached),
        ),
        (
            entry(Operation::ClassifyTelemetryOutcome, 3).0,
            crate::telemetry::classified(code@, upstream_reached),
        ),
        (
            entry(Operation::ClassifyTelemetryOutcome, 4).0,
            crate::telemetry::classified(code@, upstream_reached),
        ),
    ]);
    attempts
}

} // verus!
