use polyform_polyguard::host::parse_endpoint;
use polyform_polyguard::registry::{
    evaluate_authority, evaluate_body_framing, evaluate_canonical_head, evaluate_forwarding,
    evaluate_header_section, evaluate_hop_by_hop, evaluate_request_line, evaluate_request_target,
};
use polyform_polyguard::types::{
    BodyFraming, CanonicalRequestHead, ForwardingPolicy, HeaderBlock, PolyguardError, RequestLine,
};

fn policy(trust_incoming: bool) -> ForwardingPolicy {
    ForwardingPolicy {
        trust_incoming,
        client_ip: "192.0.2.1".to_owned(),
        proto: "https".to_owned(),
        host: "edge.test".to_owned(),
    }
}

fn parsed(line: &str, section: &str) -> (RequestLine, HeaderBlock) {
    let mut lines = evaluate_request_line(line.as_bytes());
    let mut blocks = evaluate_header_section(section.as_bytes());
    (lines.remove(0).result.unwrap(), blocks.remove(0).result.unwrap())
}

fn through(
    line: &str,
    section: &str,
    trust_incoming: bool,
) -> Vec<(&'static str, Result<CanonicalRequestHead, PolyguardError>)> {
    let (line, block) = parsed(line, section);
    let target = evaluate_request_target(&line).remove(0).result.unwrap();
    let authority = evaluate_authority(&target, &block).remove(0).result.unwrap();
    let headers = evaluate_hop_by_hop(&block).remove(0).result.unwrap();
    let framing = evaluate_body_framing(&line, &block).remove(0).result.unwrap();
    let forwarding = evaluate_forwarding(&policy(trust_incoming), &block)
        .remove(0)
        .result
        .unwrap();
    evaluate_canonical_head(&line.method, &target, &authority, &headers, &framing, &forwarding)
        .into_iter()
        .map(|attempt| (attempt.id, attempt.result))
        .collect()
}

const OUTLIER: &str = "canonical-head-dual-sink-rules";

#[test]
fn pipeline_a_request_goes_through() {
    let head = "GET /a%20b?x=1 HTTP/1.1\r\nHost: example.test:8080\r\naccept: text/plain\r\n\
        Forwarded: for=192.0.2.1;proto=https;host=\"edge.test\"\r\n\
        X-Forwarded-For: 192.0.2.1\r\nX-Forwarded-Proto: https\r\nX-Forwarded-Host: edge.test\r\n\
        Content-Length: 5\r\nConnection: close\r\n\r\n";
    for line in [
        "GET /%61%20b?x=1 HTTP/1.1\r\n",
        "GET http://EXAMPLE.test:8080/a%20b?x=1 HTTP/1.1\r\n",
    ] {
        let results = through(
            line,
            "HOST: Example.Test:8080\r\nAccept:  text/plain \r\nConnection: x-hop\r\nX-Hop: 1\r\n\
            Content-Length: 5\r\n\r\n",
            false,
        );
        assert_eq!(results.len(), 5);
        for (id, result) in results {
            let made = result.unwrap();
            assert_eq!(String::from_utf8(made.bytes).unwrap(), head, "{id}");
            assert_eq!(made.body_framing, BodyFraming::ContentLength(5), "{id}");
        }
    }
}

#[test]
fn pipeline_trusted_values_go_through() {
    for (id, result) in through(
        "GET / HTTP/1.1\r\n",
        "Host: a.test\r\nX-Forwarded-For:  198.51.100.7 , 203.0.113.9 \r\n\r\n",
        true,
    ) {
        let text = String::from_utf8(result.unwrap().bytes).unwrap();
        assert!(
            text.contains("\r\nX-Forwarded-For: 198.51.100.7 , 203.0.113.9, 192.0.2.1\r\n"),
            "{id}: {text}"
        );
    }
}

#[test]
fn pipeline_an_escaped_slash_in_a_query_divides_the_boundaries() {
    for (id, result) in through("GET /a?x=%2F HTTP/1.1\r\n", "Host: a.test\r\n\r\n", false) {
        if id == OUTLIER {
            assert_eq!(result, Err(PolyguardError::SerializationInvariant));
        } else {
            let text = String::from_utf8(result.unwrap().bytes).unwrap();
            assert!(text.starts_with("GET /a?x=%2F HTTP/1.1\r\nHost: a.test\r\n"), "{id}");
        }
    }
}

#[test]
fn pipeline_a_nomination_longer_than_a_name_is_refused() {
    let name = "n".repeat(129);
    let section = format!("Host: a.test\r\nConnection: {name}\r\n\r\n");
    for (id, result) in through("GET / HTTP/1.1\r\n", &section, false) {
        assert_eq!(result, Err(PolyguardError::SerializationInvariant), "{id}");
    }
}

#[test]
fn pipeline_a_head_reads_back() {
    let mut results = through(
        "PUT /p?q HTTP/1.1\r\n",
        "Host: [2001:DB8::1]:8443\r\nx-test: y\r\nTransfer-Encoding: chunked\r\n\r\n",
        false,
    );
    let bytes = results.remove(0).1.unwrap().bytes;
    for attempt in evaluate_request_line(&bytes) {
        let line = attempt.result.unwrap();
        assert_eq!(line.method, "put", "{}", attempt.id);
        assert_eq!(line.target, "/p?q", "{}", attempt.id);
        let rest = &bytes[line.bytes_consumed..];
        for attempt in evaluate_header_section(rest) {
            let block = attempt.result.unwrap();
            assert_eq!(block.bytes_consumed, rest.len(), "{}", attempt.id);
            let fields: Vec<(&str, &str)> = block
                .fields
                .iter()
                .map(|field| (field.name.as_str(), std::str::from_utf8(&field.value).unwrap()))
                .collect();
            assert_eq!(
                fields,
                vec![
                    ("host", "[2001:db8::1]:8443"),
                    ("x-test", "y"),
                    ("forwarded", "for=192.0.2.1;proto=https;host=\"edge.test\""),
                    ("x-forwarded-for", "192.0.2.1"),
                    ("x-forwarded-proto", "https"),
                    ("x-forwarded-host", "edge.test"),
                    ("transfer-encoding", "chunked"),
                    ("connection", "close"),
                ],
                "{}",
                attempt.id
            );
        }
    }
}

#[test]
fn pipeline_the_spelling_of_an_authority_names_it() {
    for (text, host, port) in [
        ("Example.TEST.", "example.test", None),
        ("a.test:65535", "a.test", Some(65535)),
        ("[::FFFF:192.0.2.1]:1", "[::ffff:192.0.2.1]", Some(1)),
    ] {
        let first = parse_endpoint(text.as_bytes()).unwrap();
        assert_eq!((first.host.as_str(), first.port), (host, port));
        let spelled = match port {
            Some(port) => format!("{host}:{port}"),
            None => host.to_owned(),
        };
        assert_eq!(parse_endpoint(spelled.as_bytes()), Some(first));
    }
}
