use polyform_polyguard::registry::evaluate_trailer_section;
use polyform_polyguard::samples::sample_trailer_section;
use polyform_polyguard::types::{HeaderField, PolyguardError, TrailerBlock};

fn expect(input: &[u8], declared: &[&str], expected: Result<TrailerBlock, PolyguardError>) {
    let names: Vec<String> = declared.iter().map(|name| (*name).to_owned()).collect();
    let attempts = evaluate_trailer_section(input, &names);
    assert_eq!(attempts.len(), 3);
    for attempt in attempts {
        assert_eq!(attempt.result, expected, "{}", attempt.id);
    }
}

fn block(fields: &[(&str, &[u8])], bytes_consumed: usize) -> TrailerBlock {
    TrailerBlock {
        fields: fields
            .iter()
            .map(|(name, value)| HeaderField { name: (*name).to_owned(), value: value.to_vec() })
            .collect(),
        bytes_consumed,
    }
}

fn invalid(reason: &str) -> PolyguardError {
    PolyguardError::InvalidTrailer { reason: reason.to_owned() }
}

#[test]
fn trailer_declared_fields_are_accepted() {
    expect(b"\r\n", &[], Ok(block(&[], 2)));
    expect(b"Digest: x\r\n\r\nnext", &["digest"], Ok(block(&[("digest", b"x")], 13)));
    expect(b"\r\n", &["digest"], Ok(block(&[], 2)));
}

#[test]
fn trailer_other_fields_are_not() {
    expect(b"X: y\r\n\r\n", &[], Err(invalid("undeclared_field")));
    expect(b"X: a\r\nX: b\r\n\r\n", &["x"], Err(invalid("duplicate_field")));
    expect(b"Set-Cookie: x\r\n\r\n", &["set-cookie"], Err(invalid("forbidden_field")));
}

#[test]
fn trailer_declarations_are_checked() {
    expect(b"\r\n", &["content-length"], Err(invalid("forbidden_field")));
    expect(b"\r\n", &["X"], Err(invalid("invalid_declaration")));
    expect(b"\r\n", &["x", "x"], Err(invalid("duplicate_declaration")));
}

#[test]
fn trailer_bad_lines_are_refused() {
    expect(b"X : y\r\n\r\n", &["x"], Err(invalid("whitespace_before_colon")));
    expect(b"X: y\r\n z\r\n\r\n", &["x"], Err(invalid("obs_fold")));
    expect(b"X: y\n\r\n", &["x"], Err(invalid("bare_line_ending")));
    expect(b"X: \x00\r\n\r\n", &["x"], Err(invalid("invalid_value_byte")));
}

#[test]
fn trailer_an_unfinished_section_is_incomplete() {
    expect(b"", &[], Err(PolyguardError::Incomplete));
    expect(b"X: y\r\n", &["x"], Err(PolyguardError::Incomplete));
}

#[test]
fn trailer_the_section_is_bounded() {
    let (input, names) = sample_trailer_section(7);
    for attempt in evaluate_trailer_section(&input, &names) {
        assert_eq!(
            attempt.result,
            Err(PolyguardError::LimitExceeded {
                limit: "trailer_bytes".to_owned(),
                max: 8192,
                actual: 8193,
            }),
            "{}",
            attempt.id
        );
    }
}

#[test]
fn trailer_the_number_of_fields_is_bounded() {
    let names: Vec<String> = (0..33).map(|n| format!("f{n}")).collect();
    let mut input: Vec<u8> = Vec::new();
    for name in &names {
        input.extend_from_slice(name.as_bytes());
        input.extend_from_slice(b":\r\n");
    }
    input.extend_from_slice(b"\r\n");
    for attempt in evaluate_trailer_section(&input, &names) {
        assert_eq!(attempt.result, Err(invalid("too_many_fields")), "{}", attempt.id);
    }
}
