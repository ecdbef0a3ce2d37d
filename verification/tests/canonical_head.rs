use polyform_polyguard::canonical_head::WireHost;
use polyform_polyguard::implementations::{
    canonical_head_compiled_plan, canonical_head_composable_table, canonical_head_dual_sink_rules,
    canonical_head_reverse_fill, canonical_head_rule_phases,
};
use polyform_polyguard::registry::evaluate_canonical_head;
use polyform_polyguard::samples::{block, sample_canonical_head, target, HeadSample};
use polyform_polyguard::types::{
    BodyFraming, CanonicalRequestHead, NormalizedTarget, PolyguardError, TargetForm,
};

type Constructed = Result<CanonicalRequestHead, PolyguardError>;

fn all(sample: &HeadSample) -> Vec<(&'static str, Constructed)> {
    evaluate_canonical_head(
        &sample.method,
        &sample.target,
        &sample.authority,
        &sample.headers,
        &sample.framing,
        &sample.forwarding,
    )
    .into_iter()
    .map(|attempt| (attempt.id, attempt.result))
    .collect()
}

fn strict(sample: &HeadSample) -> Vec<Constructed> {
    [
        canonical_head_rule_phases::construct_canonical_upstream_head,
        canonical_head_composable_table::construct_canonical_upstream_head,
        canonical_head_compiled_plan::construct_canonical_upstream_head,
        canonical_head_reverse_fill::construct_canonical_upstream_head,
    ]
    .into_iter()
    .map(|construct| {
        construct(
            &sample.method,
            &sample.target,
            &sample.authority,
            &sample.headers,
            &sample.framing,
            &sample.forwarding,
        )
    })
    .collect()
}

fn isolated(sample: &HeadSample) -> Constructed {
    canonical_head_dual_sink_rules::construct_canonical_upstream_head(
        &sample.method,
        &sample.target,
        &sample.authority,
        &sample.headers,
        &sample.framing,
        &sample.forwarding,
    )
}

fn refused_by_all(sample: &HeadSample) {
    for (id, result) in all(sample) {
        assert_eq!(result, Err(PolyguardError::SerializationInvariant), "{id}");
    }
}

const FORWARDING: &str = "Forwarded: for=192.0.2.1;proto=https;host=\"example.test\"\r\n\
    X-Forwarded-For: 192.0.2.1\r\n\
    X-Forwarded-Proto: https\r\n\
    X-Forwarded-Host: example.test\r\n";

fn expect(sample: &HeadSample, text: &str) {
    let results = all(sample);
    assert_eq!(results.len(), 5);
    for (id, result) in results {
        let head = result.unwrap();
        assert_eq!(String::from_utf8(head.bytes).unwrap(), text, "{id}");
        assert_eq!(head.body_framing, sample.framing, "{id}");
    }
}

#[test]
fn canonical_head_a_head_without_a_body() {
    expect(
        &sample_canonical_head(0),
        &format!(
            "GET /a?x=1 HTTP/1.1\r\nHost: example.test\r\nx-test: y\r\n{FORWARDING}\
            Connection: close\r\n\r\n"
        ),
    );
}

#[test]
fn canonical_head_a_head_with_a_length() {
    let mut sample = sample_canonical_head(1);
    sample.framing = BodyFraming::ContentLength(1024);
    sample.authority.port = Some(8080);
    expect(
        &sample,
        &format!(
            "POST /a?x=1 HTTP/1.1\r\nHost: example.test:8080\r\nx-test: y\r\n{FORWARDING}\
            Content-Length: 1024\r\nConnection: close\r\n\r\n"
        ),
    );
}

#[test]
fn canonical_head_a_head_with_chunks_and_an_ipv6_host() {
    let mut sample = sample_canonical_head(0);
    sample.framing = BodyFraming::Chunked;
    for host in ["::1", "[::1]"] {
        sample.authority.host = host.to_owned();
        sample.authority.port = Some(1);
        expect(
            &sample,
            &format!(
                "GET /a?x=1 HTTP/1.1\r\nHost: [::1]:1\r\nx-test: y\r\n{FORWARDING}\
                Transfer-Encoding: chunked\r\nConnection: close\r\n\r\n"
            ),
        );
    }
}

#[test]
fn canonical_head_replaced_fields_are_left_out() {
    let mut sample = sample_canonical_head(0);
    sample.headers.fields = block(vec![
        ("host", "evil"),
        ("a", "1"),
        ("content-length", "9"),
        ("transfer-encoding", "x"),
        ("connection", "x"),
        ("forwarded", "x"),
        ("x-forwarded-for", "x"),
        ("x-forwarded-port", "x"),
        ("b", ""),
    ])
    .fields;
    expect(
        &sample,
        &format!(
            "GET /a?x=1 HTTP/1.1\r\nHost: example.test\r\na: 1\r\nb: \r\n{FORWARDING}\
            Connection: close\r\n\r\n"
        ),
    );
}

#[test]
fn canonical_head_bad_parts_are_refused() {
    for choice in [2, 3, 4, 5, 6] {
        refused_by_all(&sample_canonical_head(choice));
    }
    let mut sample = sample_canonical_head(0);
    sample.authority.port = Some(0);
    refused_by_all(&sample);
    let mut sample = sample_canonical_head(0);
    sample.headers.removed_names = vec!["b".to_owned(), "a".to_owned()];
    refused_by_all(&sample);
    let mut sample = sample_canonical_head(0);
    sample.framing = BodyFraming::ContentLength(16_777_217);
    refused_by_all(&sample);
    let mut sample = sample_canonical_head(0);
    sample.forwarding.x_forwarded_for = "a\r\nEvil: 1".to_owned();
    refused_by_all(&sample);
    let mut sample = sample_canonical_head(0);
    sample.headers.fields = block(vec![("a", " x")]).fields;
    refused_by_all(&sample);
    for path in ["/%2f", "/%41", "/%2", "/a/../b", "/a\\b", "/ "] {
        let mut sample = sample_canonical_head(0);
        sample.target = target(path);
        refused_by_all(&sample);
    }
}

#[test]
fn canonical_head_absolute_targets_have_to_agree_with_the_authority() {
    let mut sample = sample_canonical_head(0);
    sample.target = NormalizedTarget {
        form: TargetForm::Absolute,
        scheme: Some("http".to_owned()),
        authority: Some("example.test:80".to_owned()),
        path_and_query: "/".to_owned(),
        routing_path: "/".to_owned(),
    };
    for (id, result) in all(&sample) {
        assert!(result.is_ok(), "{id}");
    }
    sample.authority.host = "other.test".to_owned();
    for result in strict(&sample) {
        assert_eq!(result, Err(PolyguardError::SerializationInvariant));
    }
    assert!(isolated(&sample).is_ok());
    sample.authority.host = "example.test".to_owned();
    sample.target.authority = Some("example.test:+80".to_owned());
    for result in strict(&sample) {
        assert_eq!(result, Err(PolyguardError::SerializationInvariant));
    }
    assert!(isolated(&sample).is_ok());
}

#[test]
fn canonical_head_slashes_in_queries_and_quotes_in_values() {
    let mut sample = sample_canonical_head(0);
    sample.target = target("/a?x=%2F");
    for result in strict(&sample) {
        assert!(result.is_ok());
    }
    assert_eq!(isolated(&sample), Err(PolyguardError::SerializationInvariant));
    let mut sample = sample_canonical_head(0);
    sample.forwarding.forwarded = "for=\"a,,b\"".to_owned();
    for result in strict(&sample) {
        assert_eq!(result, Err(PolyguardError::SerializationInvariant));
    }
    assert!(isolated(&sample).is_ok());
    sample.forwarding.forwarded = "for=\"a".to_owned();
    for result in strict(&sample) {
        assert!(result.is_ok());
    }
    assert_eq!(isolated(&sample), Err(PolyguardError::SerializationInvariant));
}

#[test]
fn canonical_head_the_head_is_bounded() {
    let mut sample = sample_canonical_head(0);
    let value = "v".repeat(8000);
    sample.headers.fields =
        block((0..6).map(|_| ("name", value.as_str())).collect()).fields;
    let base = {
        let mut empty = sample_canonical_head(0);
        empty.headers.fields = vec![];
        isolated(&empty).unwrap().bytes.len()
    };
    let size = base + 6 * 8008;
    assert!(size < 49_152);
    for (id, result) in all(&sample) {
        assert_eq!(result.unwrap().bytes.len(), size, "{id}");
    }
    sample.headers.fields.push(block(vec![("name", value.as_str())]).fields.remove(0));
    for (id, result) in all(&sample) {
        assert_eq!(
            result,
            Err(PolyguardError::LimitExceeded {
                limit: "canonical_head_bytes".to_owned(),
                max: 49_152,
                actual: size + 8008,
            }),
            "{id}"
        );
    }
}

#[test]
fn canonical_head_the_head_ends_where_its_only_empty_line_is() {
    for choice in [0, 1, 8, 9] {
        for (id, result) in all(&sample_canonical_head(choice)) {
            let text = String::from_utf8(result.unwrap().bytes).unwrap();
            assert_eq!(text.find("\r\n\r\n"), Some(text.len() - 4), "{id}");
        }
    }
}

#[test]
fn canonical_head_a_plan_predicts_the_head() {
    let mut sample = sample_canonical_head(0);
    sample.headers.fields =
        block(vec![("host", "a"), ("x-one", "1"), ("x-forwarded-by", "b"), ("y", "2")]).fields;
    let plan = canonical_head_compiled_plan::compile_wire_plan(
        &sample.method,
        &sample.target,
        &sample.authority,
        &sample.headers,
        &sample.framing,
        &sample.forwarding,
    )
    .ok()
    .unwrap();
    assert_eq!(plan.retained_fields, 0b1010);
    for (id, result) in all(&sample) {
        assert_eq!(result.unwrap().bytes.len(), plan.encoded_len, "{id}");
    }
}

#[test]
fn canonical_head_both_sinks_get_the_same() {
    let sample = sample_canonical_head(1);
    let trusted = canonical_head_dual_sink_rules::TrustedView {
        method: b"get",
        path: b"any path",
        host: WireHost { text: b"::1", is_v6: true },
    };
    let mut counter = canonical_head_dual_sink_rules::Counter(0);
    let mut bytes: Vec<u8> = Vec::new();
    let counted = canonical_head_dual_sink_rules::emit_head(
        &mut counter,
        &trusted,
        &sample.authority,
        &sample.headers,
        &sample.framing,
        &sample.forwarding,
    );
    let written = canonical_head_dual_sink_rules::emit_head(
        &mut bytes,
        &trusted,
        &sample.authority,
        &sample.headers,
        &sample.framing,
        &sample.forwarding,
    );
    assert!(counted.is_some() && written.is_some());
    assert_eq!(counter.0, bytes.len());
    assert!(bytes.starts_with(b"GET any path HTTP/1.1\r\nHost: [::1]\r\n"));
}

#[test]
fn canonical_head_replaced_fields_are_not_sent() {
    let mut sample = sample_canonical_head(0);
    let plain = all(&sample);
    sample.headers.fields = block(vec![
        ("host", "h"),
        ("x-test", "y"),
        ("content-length", "9"),
        ("transfer-encoding", "x"),
        ("connection", "x"),
        ("forwarded", "x"),
        ("x-forwarded-anything", "x"),
    ])
    .fields;
    assert_eq!(all(&sample), plain);
}
