use polyform_polyguard::registry::evaluate_request_line;
use polyform_polyguard::samples::sample_request_line;
use polyform_polyguard::types::{HttpVersion, PolyguardError, RequestLine};

fn expect(input: &[u8], expected: Result<RequestLine, PolyguardError>) {
    let attempts = evaluate_request_line(input);
    assert_eq!(attempts.len(), 5);
    for attempt in attempts {
        assert_eq!(attempt.result, expected, "{}", attempt.id);
    }
}

fn line(method: &str, target: &str, bytes_consumed: usize) -> RequestLine {
    RequestLine {
        method: method.to_owned(),
        target: target.to_owned(),
        version: HttpVersion::Http11,
        bytes_consumed,
    }
}

fn malformed(reason: &str) -> PolyguardError {
    PolyguardError::InvalidRequestLine { reason: reason.to_owned() }
}

#[test]
fn request_line_a_line_is_parsed_and_the_method_is_in_lower_case() {
    expect(b"GET / HTTP/1.1\r\n", Ok(line("get", "/", 16)));
    expect(b"M-SEARCH /x?y=1 HTTP/1.1\r\nnext", Ok(line("m-search", "/x?y=1", 26)));
    expect(b"OPTIONS * HTTP/1.1\r\n", Ok(line("options", "*", 20)));
}

#[test]
fn request_line_what_follows_the_line_plays_no_part() {
    let whole = b"GET /a HTTP/1.1\r\nHost: x\r\n\r\n\x00\xff";
    expect(whole, Ok(line("get", "/a", 17)));
    expect(&whole[..17], Ok(line("get", "/a", 17)));
}

#[test]
fn request_line_a_line_without_an_end_is_incomplete() {
    expect(b"", Err(PolyguardError::Incomplete));
    expect(b"GET / HTTP/1.1", Err(PolyguardError::Incomplete));
    expect(b"GET / HTTP/1.1\r", Err(malformed("bare_line_ending")));
}

#[test]
fn request_line_spacing_and_line_endings_are_strict() {
    expect(b"GET  / HTTP/1.1\r\n", Err(malformed("invalid_spacing")));
    expect(b"GET / HTTP/1.1\n", Err(malformed("bare_line_ending")));
    expect(b"GET / HTTP/1.1\rX", Err(malformed("bare_line_ending")));
    expect(b"GET /\x01 HTTP/1.1\r\n", Err(malformed("control_character")));
}

#[test]
fn request_line_versions_and_targets_are_checked() {
    expect(b"GET / HTTP/1.0\r\n", Err(PolyguardError::UnsupportedVersion));
    expect(
        b"GET /x#y HTTP/1.1\r\n",
        Err(PolyguardError::InvalidTarget { reason: "fragment_not_allowed".to_owned() }),
    );
    expect(
        b"GET /\xff HTTP/1.1\r\n",
        Err(PolyguardError::InvalidTarget { reason: "non_visible_ascii".to_owned() }),
    );
}

#[test]
fn request_line_methods_are_tokens_of_bounded_length() {
    expect(&sample_request_line(8), Ok(line(&"a".repeat(32), "/", 45)));
    expect(&sample_request_line(9), Err(PolyguardError::InvalidMethod));
    expect(b"G(T / HTTP/1.1\r\n", Err(PolyguardError::InvalidMethod));
}

#[test]
fn request_line_the_line_is_bounded() {
    let too_long = PolyguardError::LimitExceeded {
        limit: "request_line_bytes".to_owned(),
        max: 8192,
        actual: 8193,
    };
    assert_eq!(sample_request_line(6).len(), 8192);
    assert_eq!(sample_request_line(7).len(), 8193);
    for attempt in evaluate_request_line(&sample_request_line(7)) {
        assert_eq!(attempt.result, Err(too_long.clone()), "{}", attempt.id);
    }
}
