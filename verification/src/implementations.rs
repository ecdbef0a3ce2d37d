//! The implementations, one module each.

pub mod telemetry_rule_table;
pub mod telemetry_symbol_phases;
pub mod telemetry_fingerprint_index;
pub mod telemetry_length_dispatch;
pub mod telemetry_word_composition;
pub mod request_line_direct;
pub mod request_line_reverse_offsets;
pub mod request_line_rule_wrappers;
pub mod request_line_decision_machine;
pub mod request_line_state;
pub mod hop_by_hop_composable;
pub mod hop_by_hop_rule_table;
pub mod hop_by_hop_sorted_plan;
pub mod hop_by_hop_token_trie;
pub mod hop_by_hop_typed_pipeline;
pub mod body_framing_bounded_domain;
pub mod body_framing_direct;
pub mod body_framing_rule_matrix;
pub mod body_framing_stream_machine;
pub mod body_framing_transition;
pub mod authority_phases;
pub mod authority_endpoint_algebra;
pub mod authority_invariant_table;
pub mod authority_composable_components;
pub mod authority_segment_pipeline;
pub mod route_direct;
pub mod route_bounded_match;
pub mod route_immutable_table;
pub mod route_rule_pipeline;
pub mod route_typed_arithmetic;
pub mod header_typed_cursor;
pub mod header_algebraic_lines;
pub mod header_decision_table;
pub mod header_state_phases;
pub mod header_transition_reducer;
pub mod chunk_guarded_parts;
pub mod chunk_rule_pipeline;
pub mod chunk_symbol_rule_iterator;
pub mod chunk_composable_segments;
pub mod chunk_invariant_spans;
pub mod trailer_direct_table;
pub mod trailer_event_automaton;
pub mod trailer_invariant_trie;
pub mod request_target_rules;
pub mod request_target_validated_pipeline;
pub mod request_target_invariant_offsets;
pub mod request_target_composable_validators;
pub mod request_target_typed_matrix;
pub mod forwarding_decision_table;
pub mod forwarding_direct_match;
pub mod forwarding_central_transition;
pub mod forwarding_primitive_boundary;
pub mod forwarding_transition_model;
pub mod canonical_head_rule_phases;
pub mod canonical_head_composable_table;
pub mod canonical_head_compiled_plan;
pub mod canonical_head_reverse_fill;
pub mod canonical_head_dual_sink_rules;
