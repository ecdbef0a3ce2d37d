use polyform_polyguard::implementations::header_transition_reducer;
use polyform_polyguard::registry::evaluate_header_section;
use polyform_polyguard::samples::sample_header_section;
use polyform_polyguard::types::{HeaderBlock, HeaderField, PolyguardError};

fn expect(input: &[u8], expected: Result<HeaderBlock, PolyguardError>) {
    let attempts = evaluate_header_section(input);
    assert_eq!(attempts.len(), 5);
    for attempt in attempts {
        assert_eq!(attempt.result, expected, "{}", attempt.id);
    }
}

fn block(fields: &[(&str, &[u8])], bytes_consumed: usize) -> HeaderBlock {
    HeaderBlock {
        fields: fields
            .iter()
            .map(|(name, value)| HeaderField { name: (*name).to_owned(), value: value.to_vec() })
            .collect(),
        bytes_consumed,
    }
}

fn invalid(index: usize, reason: &str) -> PolyguardError {
    PolyguardError::InvalidHeader { index, reason: reason.to_owned() }
}

#[test]
fn header_an_empty_section_has_no_fields() {
    expect(b"\r\n", Ok(block(&[], 2)));
}

#[test]
fn header_names_are_lowered_and_values_trimmed() {
    expect(b"Host: x\r\nX: y\r\n\r\nbody", Ok(block(&[("host", b"x"), ("x", b"y")], 17)));
    expect(b"X:\t a \t\r\n\r\n", Ok(block(&[("x", b"a")], 11)));
    expect(b"X:\r\n\r\n", Ok(block(&[("x", b"")], 6)));
    expect(b"X: \xffz\r\n\r\n", Ok(block(&[("x", b"\xffz")], 9)));
}

#[test]
fn header_what_follows_the_section_plays_no_part() {
    expect(b"A: b\r\n\r\n", Ok(block(&[("a", b"b")], 8)));
    expect(b"A: b\r\n\r\n\x00\n\r", Ok(block(&[("a", b"b")], 8)));
}

#[test]
fn header_an_unfinished_section_is_incomplete() {
    expect(b"", Err(PolyguardError::Incomplete));
    expect(b"A: b\r\n", Err(PolyguardError::Incomplete));
    expect(b"A: b\r", Err(invalid(0, "bare_line_ending")));
}

#[test]
fn header_bad_lines_are_refused() {
    expect(b"Host : x\r\n\r\n", Err(invalid(0, "whitespace_before_colon")));
    expect(b"X: a\r\n b\r\n\r\n", Err(invalid(6, "obs_fold")));
    expect(b"X: a\0b\r\n\r\n", Err(invalid(0, "invalid_value_byte")));
    expect(b"A: b\nC: d\r\n\r\n", Err(invalid(0, "bare_line_ending")));
    expect(b": b\r\n\r\n", Err(invalid(0, "invalid_name")));
}

#[test]
fn header_the_number_of_fields_is_bounded() {
    let most = sample_header_section(8);
    for attempt in evaluate_header_section(&most) {
        let parsed = attempt.result.unwrap();
        assert_eq!(parsed.fields.len(), 128);
        assert_eq!(parsed.bytes_consumed, most.len());
    }
    expect(&sample_header_section(9), Err(PolyguardError::TooManyHeaders));
}

#[test]
fn header_the_length_of_a_value_is_bounded() {
    for attempt in evaluate_header_section(&sample_header_section(10)) {
        assert_eq!(attempt.result.unwrap().fields[0].value.len(), 8192);
    }
    expect(
        &sample_header_section(11),
        Err(PolyguardError::LimitExceeded {
            limit: "header_value_bytes".to_owned(),
            max: 8192,
            actual: 8193,
        }),
    );
}

#[test]
fn header_the_length_of_a_name_is_bounded() {
    let mut input = vec![b'n'; 129];
    input.extend_from_slice(b": v\r\n\r\n");
    expect(
        &input,
        Err(PolyguardError::LimitExceeded {
            limit: "header_name_bytes".to_owned(),
            max: 128,
            actual: 129,
        }),
    );
    expect(&input[1..], Ok(block(&[(&"n".repeat(128), b"v")], 135)));
}

#[test]
fn header_the_section_is_bounded() {
    expect(
        &sample_header_section(7),
        Err(PolyguardError::LimitExceeded {
            limit: "header_section_bytes".to_owned(),
            max: 32768,
            actual: 32769,
        }),
    );
}

#[test]
fn header_field_lines_are_counted() {
    let envelope =
        header_transition_reducer::validate_framing(b"Host: x\r\nX: y\r\n\r\nbody").unwrap();
    assert_eq!((envelope.bytes_consumed, envelope.field_count), (17, 2));
    let empty = header_transition_reducer::validate_framing(b"\r\nX: y\r\n\r\n").unwrap();
    assert_eq!((empty.bytes_consumed, empty.field_count), (2, 0));
}

#[test]
fn header_a_rendered_section_reads_back() {
    let fields: [(&str, &[u8]); 4] = [("b", b"x y"), ("a", b""), ("b", b"\xff\tz"), ("c", b"\"")];
    let mut section: Vec<u8> = Vec::new();
    for (name, value) in fields {
        section.extend_from_slice(name.as_bytes());
        section.extend_from_slice(b": ");
        section.extend_from_slice(value);
        section.extend_from_slice(b"\r\n");
    }
    section.extend_from_slice(b"\r\n");
    let consumed = section.len();
    section.extend_from_slice(b"\n\x00 tail: x\r\n");
    expect(&section, Ok(block(&fields, consumed)));
}
