# polyform-polyguard

The steps of an HTTP/1.1 reverse proxy between the bytes of a request and the head that goes
upstream, each written several times on purpose: five ways to parse a request line, five ways to
frame a body, and so on, so that they can be run side by side and what they say be compared. Every
one of them is verified with Verus against the model of its step.

- `src/types.rs` holds the values that the steps exchange, each with its model.
- `src/request_line.rs`, `header.rs`, `body_framing.rs`, `chunk.rs`, `trailer.rs`,
  `request_target.rs`, `authority.rs`, `hop_by_hop.rs`, `canonical_head.rs`, `route.rs`,
  `forwarding.rs` and `telemetry.rs` hold one step each: what it gives, the laws it keeps, and what
  its implementations share.
- `src/implementations/` holds the implementations. Where two of them differ on some input, their
  contracts name different models, and a law says where these agree.
- `src/head_round_trip.rs`, `ip_round_trip.rs` and `pipeline.rs` relate the steps to each other.
- `src/registry.rs` lists the implementations and runs all that serve one step.
- `src/samples.rs` makes the inputs of the comparison from a seed.
- `app/` is the command that makes the comparison and prints it as JSON.

One function is trusted: `decode_text` in `src/text.rs`, which calls `String::from_utf8`.
