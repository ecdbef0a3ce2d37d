//! What the operations do, said of the bytes that go in and come out.
//!
//! The laws here name bytes, words and limits outright. They hold of the models that the
//! contracts of the operations speak of, and so of every implementation.

pub mod addresses;
pub mod authorities;
pub mod byte_text;
pub mod chunks;
pub mod forwarded;
pub mod framing;
pub mod head_inputs;
pub mod heads;
pub mod hop_fields;
pub mod hosts;
pub mod outcomes;
pub mod refusals;
pub mod request_lines;
pub mod route_rules;
pub mod routing;
pub mod section_refusals;
pub mod sections;
pub mod target_forms;
pub mod targets;
