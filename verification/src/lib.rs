//! N-version building blocks of an HTTP/1.1 reverse proxy.
//!
//! Each operation of the proxy's request path is implemented several times, in independent
//! styles, so that the results can be compared at run time. Here every implementation carries
//! a contract over a mathematical model of the operation, and the modules that hold the models
//! also prove where the implementations agree.

use vstd::prelude::*;

pub mod authority;
pub mod body_framing;
pub mod bytes;
pub mod canonical_head;
pub mod chunk;
pub mod decimal;
pub mod forwarding;
pub mod head_round_trip;
pub mod header;
pub mod hex;
pub mod hop_by_hop;
pub mod host;
pub mod implementations;
pub mod ip;
pub mod ip_round_trip;
pub mod laws;
pub mod line_facts;
pub mod names;
pub mod pipeline;
pub mod radix;
pub mod registry;
pub mod request_line;
pub mod request_target;
pub mod route;
pub mod samples;
pub mod telemetry;
pub mod text;
pub mod trailer;
pub mod trie;
pub mod types;

verus! {

} // verus!
