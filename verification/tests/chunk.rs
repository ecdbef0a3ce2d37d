use polyform_polyguard::implementations::{chunk_invariant_spans, chunk_symbol_rule_iterator};
use polyform_polyguard::registry::evaluate_chunk_metadata;
use polyform_polyguard::samples::sample_chunk_metadata;
use polyform_polyguard::types::{ChunkExtension, ChunkMeta, PolyguardError};

fn expect(input: &[u8], expected: Result<ChunkMeta, PolyguardError>) {
    let attempts = evaluate_chunk_metadata(input);
    assert_eq!(attempts.len(), 5);
    for attempt in attempts {
        assert_eq!(attempt.result, expected, "{}", attempt.id);
    }
}

fn meta(size: u64, extensions: &[(&str, Option<&str>)], bytes_consumed: usize) -> ChunkMeta {
    ChunkMeta {
        size,
        extensions: extensions
            .iter()
            .map(|(name, value)| ChunkExtension {
                name: (*name).to_owned(),
                value: value.map(|value| value.to_owned()),
            })
            .collect(),
        bytes_consumed,
    }
}

fn invalid(reason: &str) -> PolyguardError {
    PolyguardError::InvalidChunk { reason: reason.to_owned() }
}

#[test]
fn chunk_sizes_are_hexadecimal() {
    expect(b"0\r\n", Ok(meta(0, &[], 3)));
    expect(b"aF\r\ndata", Ok(meta(175, &[], 4)));
    expect(b"0010\r\n", Ok(meta(16, &[], 6)));
    expect(b"0x10\r\n", Err(invalid("invalid_size")));
    expect(b"\r\n", Err(invalid("invalid_size")));
}

#[test]
fn chunk_sizes_are_bounded() {
    expect(b"1000000\r\n", Ok(meta(16_777_216, &[], 9)));
    expect(
        b"1000001\r\n",
        Err(PolyguardError::LimitExceeded {
            limit: "chunk_size".to_owned(),
            max: 16_777_216,
            actual: 16_777_217,
        }),
    );
}

#[test]
fn chunk_extensions_are_read() {
    expect(
        b"a;Foo=bar;x=\"a\\\"b\"\r\ndata",
        Ok(meta(10, &[("foo", Some("bar")), ("x", Some("a\"b"))], 20)),
    );
    expect(b"1;flag\r\n", Ok(meta(1, &[("flag", None)], 8)));
    expect(b"1;e=\"\"\r\n", Ok(meta(1, &[("e", Some(""))], 8)));
}

#[test]
fn chunk_what_follows_the_line_plays_no_part() {
    expect(b"5;a=b\r\n", Ok(meta(5, &[("a", Some("b"))], 7)));
    expect(b"5;a=b\r\n\n\x00\xff\"", Ok(meta(5, &[("a", Some("b"))], 7)));
}

#[test]
fn chunk_lines_end_with_carriage_return_and_line_feed() {
    expect(b"a\n", Err(invalid("invalid_line_ending_or_control")));
    expect(b"a", Err(PolyguardError::Incomplete));
    expect(b"a\r", Err(invalid("invalid_line_ending_or_control")));
}

#[test]
fn chunk_bad_extensions_are_refused() {
    expect(b"a; x=y\r\n", Err(invalid("invalid_extension_name")));
    expect(b"a;\r\n", Err(invalid("invalid_extension_name")));
    for attempt in evaluate_chunk_metadata(b"a;x=\"bad\r\n") {
        assert_eq!(attempt.result, Err(invalid("invalid_quoted_string")), "{}", attempt.id);
    }
    expect(b"a;x=\r\n", Err(invalid("invalid_extension_value")));
}

#[test]
fn chunk_the_number_of_extensions_is_bounded() {
    for attempt in evaluate_chunk_metadata(&sample_chunk_metadata(10)) {
        assert_eq!(attempt.result.unwrap().extensions.len(), 16);
    }
    for attempt in evaluate_chunk_metadata(&sample_chunk_metadata(11)) {
        assert_eq!(
            attempt.result,
            Err(PolyguardError::LimitExceeded {
                limit: "chunk_extensions".to_owned(),
                max: 16,
                actual: 17,
            }),
            "{}",
            attempt.id
        );
    }
}

#[test]
fn chunk_the_line_is_bounded() {
    for attempt in evaluate_chunk_metadata(&sample_chunk_metadata(7)) {
        assert_eq!(
            attempt.result,
            Err(PolyguardError::LimitExceeded {
                limit: "chunk_line_bytes".to_owned(),
                max: 1024,
                actual: 1025,
            }),
            "{}",
            attempt.id
        );
    }
}

#[test]
fn chunk_strings_beyond_ascii_are_text_or_refused() {
    let input = "1;a=\"\u{e9}\"\r\n".as_bytes();
    let mut accepted = 0;
    for attempt in evaluate_chunk_metadata(input) {
        if let Ok(parsed) = attempt.result {
            assert_eq!(parsed, meta(1, &[("a", Some("\u{e9}"))], 10));
            accepted += 1;
        }
    }
    assert_eq!(accepted, 4);
    assert!(chunk_symbol_rule_iterator::parse_chunk_metadata(input).is_err());
    for attempt in evaluate_chunk_metadata(b"1;a=\"\xff\"\r\n") {
        assert!(attempt.result.is_err(), "{}", attempt.id);
    }
}

#[test]
fn chunk_nothing_comes_after_an_error() {
    for rest in [&b";=x;b"[..], b"a;b", b";a=;b", b";a=\"x;b", b";a=\"\x01\";b", b";a b;c", b";a=b c;d"] {
        let mut iterator = chunk_symbol_rule_iterator::ExtensionIterator::new(rest);
        assert!(matches!(iterator.next(), Some(Err(_))));
        assert!(iterator.remaining.is_empty());
        assert!(iterator.next().is_none());
    }
    let mut iterator = chunk_symbol_rule_iterator::ExtensionIterator::new(b"a;b");
    match iterator.next() {
        Some(Err(error)) => assert_eq!(error, invalid("invalid_extension_name")),
        _ => panic!("a rest without a separator is refused"),
    }
    let mut iterator = chunk_symbol_rule_iterator::ExtensionIterator::new(b";a=\"x\";b");
    match iterator.next() {
        Some(Ok(found)) => assert_eq!(found.name, b"a"),
        _ => panic!("the first extension is read"),
    }
    assert_eq!(iterator.remaining, b";b");
    assert!(matches!(iterator.next(), Some(Ok(_))));
    assert!(iterator.next().is_none());
}

#[test]
fn chunk_pairs_are_projected_before_text_is_looked_for() {
    let valid = chunk_invariant_spans::valid_unescaped_utf8;
    assert!(valid(b""));
    assert!(valid(b"a\"b\\\"c"));
    assert!(valid("\u{e9}".as_bytes()));
    assert!(valid(b"\\\xc3\\\xa9"));
    assert!(valid(b"\xc3\\\xa9"));
    assert!(!valid(b"\xc3a"));
    assert!(!valid(b"\\\xff"));
    assert!(valid(b"a\\"));
    assert!(!valid(b"\xc3\\"));
}

#[test]
fn chunk_an_isolated_line_ends_where_it_ended() {
    let isolate = chunk_invariant_spans::isolate_line;
    for tail in [&b""[..], b"\r\n", b"\x00", b"more"] {
        let mut input = b"zz;=\r\n".to_vec();
        input.extend_from_slice(tail);
        assert_eq!(isolate(&input), Ok((&b"zz;="[..], 6)));
    }
}
