use polyform_polyguard::registry::evaluate_body_framing;
use polyform_polyguard::samples::{block, line_with};
use polyform_polyguard::types::{BodyFraming, PolyguardError};

fn expect(fields: &[(&str, &str)], expected: Result<BodyFraming, PolyguardError>) {
    let attempts = evaluate_body_framing(&line_with("post", "/"), &block(fields.to_vec()));
    assert_eq!(attempts.len(), 5);
    for attempt in attempts {
        assert_eq!(attempt.result, expected, "{} on {:?}", attempt.id, fields);
    }
}

#[test]
fn body_framing_without_framing_fields_there_is_no_body() {
    expect(&[], Ok(BodyFraming::NoBody));
    expect(&[("host", "x")], Ok(BodyFraming::NoBody));
    expect(&[("content-length", "0")], Ok(BodyFraming::NoBody));
}

#[test]
fn body_framing_lengths_have_to_agree() {
    expect(&[("content-length", "5")], Ok(BodyFraming::ContentLength(5)));
    expect(&[("content-length", "05, 5")], Ok(BodyFraming::ContentLength(5)));
    expect(
        &[("content-length", "5"), ("content-length", "5")],
        Ok(BodyFraming::ContentLength(5)),
    );
    expect(&[("content-length", "4,5")], Err(PolyguardError::ConflictingContentLength));
}

#[test]
fn body_framing_lengths_are_digits() {
    for value in ["", "+1", "-1", "1a", "5,", "5,,5", "99999999999999999999"] {
        expect(&[("content-length", value)], Err(PolyguardError::InvalidContentLength));
    }
}

#[test]
fn body_framing_lengths_are_bounded() {
    expect(&[("content-length", "16777216")], Ok(BodyFraming::ContentLength(16_777_216)));
    expect(
        &[("content-length", "16777217")],
        Err(PolyguardError::LimitExceeded {
            limit: "content_length".to_owned(),
            max: 16_777_216,
            actual: 16_777_217,
        }),
    );
}

#[test]
fn body_framing_the_only_coding_is_chunked() {
    expect(&[("transfer-encoding", "chunked")], Ok(BodyFraming::Chunked));
    expect(&[("transfer-encoding", " CHUNKED\t")], Ok(BodyFraming::Chunked));
    expect(
        &[("transfer-encoding", "gzip, chunked")],
        Err(PolyguardError::InvalidTransferEncoding),
    );
    expect(
        &[("transfer-encoding", "chunked"), ("transfer-encoding", "chunked")],
        Err(PolyguardError::InvalidTransferEncoding),
    );
}

#[test]
fn body_framing_both_kinds_of_framing_are_ambiguous() {
    expect(
        &[("transfer-encoding", "chunked"), ("content-length", "0")],
        Err(PolyguardError::AmbiguousFraming),
    );
    expect(
        &[("transfer-encoding", "bad"), ("content-length", "bad")],
        Err(PolyguardError::AmbiguousFraming),
    );
}
