use polyform_polyguard::implementations::{
    request_target_composable_validators, request_target_invariant_offsets, request_target_rules,
    request_target_typed_matrix, request_target_validated_pipeline,
};
use polyform_polyguard::registry::evaluate_request_target;
use polyform_polyguard::samples::{line_with, sample_request_target};
use polyform_polyguard::types::{NormalizedTarget, PolyguardError, TargetForm};

fn expect(method: &str, target: &str, expected: NormalizedTarget) {
    let attempts = evaluate_request_target(&line_with(method, target));
    assert_eq!(attempts.len(), 5);
    for attempt in attempts {
        assert_eq!(attempt.result.as_ref(), Ok(&expected), "{} on {}", attempt.id, target);
    }
}

/// The error of the implementations that agree on their reasons.
fn refused(method: &str, target: &str, reason: &str) {
    let request = line_with(method, target);
    let expected = Err(PolyguardError::InvalidTarget { reason: reason.to_owned() });
    assert_eq!(request_target_rules::normalize_request_target(&request), expected);
    assert_eq!(request_target_validated_pipeline::normalize_request_target(&request), expected);
    assert!(request_target_invariant_offsets::normalize_request_target(&request).is_err());
    assert!(request_target_composable_validators::normalize_request_target(&request).is_err());
    assert!(request_target_typed_matrix::normalize_request_target(&request).is_err());
}

fn origin(path_and_query: &str, routing_path: &str) -> NormalizedTarget {
    NormalizedTarget {
        form: TargetForm::Origin,
        scheme: None,
        authority: None,
        path_and_query: path_and_query.to_owned(),
        routing_path: routing_path.to_owned(),
    }
}

#[test]
fn request_target_paths_are_reduced_and_escapes_canonical() {
    expect("get", "/a/%7e/b/../c?x=%2f", origin("/a/~/c?x=%2F", "/a/~/c"));
    expect("get", "/a//b/./c", origin("/a//b/c", "/a//b/c"));
    expect("get", "/", origin("/", "/"));
}

#[test]
fn request_target_normalizing_twice_is_normalizing_once() {
    for target in ["/a/%7e/b/../c?x=%2f", "/a//b/./c", "/%41%c3%a9/?q", "/x/.."] {
        let once = request_target_rules::normalize_request_target(&line_with("get", target)).unwrap();
        let twice =
            request_target_rules::normalize_request_target(&line_with("get", &once.path_and_query))
                .unwrap();
        assert_eq!(once, twice);
    }
}

#[test]
fn request_target_absolute_targets_name_their_authority() {
    for (target, authority, path) in [
        ("https://example.test", "example.test", "/"),
        ("https://example.test/x?y", "example.test", "/x?y"),
    ] {
        expect(
            "get",
            target,
            NormalizedTarget {
                form: TargetForm::Absolute,
                scheme: Some("https".to_owned()),
                authority: Some(authority.to_owned()),
                path_and_query: path.to_owned(),
                routing_path: path.split('?').next().unwrap().to_owned(),
            },
        );
    }
    for attempt in evaluate_request_target(&sample_request_target(1)) {
        let parsed = attempt.result.unwrap();
        assert_eq!(parsed.form, TargetForm::Absolute, "{}", attempt.id);
        assert_eq!(parsed.scheme.as_deref(), Some("http"), "{}", attempt.id);
        assert_eq!(parsed.path_and_query, "/a", "{}", attempt.id);
    }
}

#[test]
fn request_target_connect_takes_an_authority() {
    for attempt in evaluate_request_target(&line_with("connect", "example.test:443")) {
        let parsed = attempt.result.unwrap();
        assert_eq!(parsed.form, TargetForm::Authority, "{}", attempt.id);
        assert_eq!(parsed.authority.as_deref(), Some("example.test:443"), "{}", attempt.id);
    }
    for attempt in evaluate_request_target(&line_with("connect", "/")) {
        assert!(attempt.result.is_err(), "{}", attempt.id);
    }
}

#[test]
fn request_target_only_options_takes_the_asterisk() {
    for attempt in evaluate_request_target(&line_with("options", "*")) {
        assert_eq!(attempt.result.unwrap().form, TargetForm::Asterisk, "{}", attempt.id);
    }
    refused("get", "*", "asterisk_method");
}

#[test]
fn request_target_bad_paths_are_refused() {
    refused("get", "/a%2fb", "encoded_separator");
    refused("get", "/a%5Cb", "encoded_separator");
    refused("get", "/a%00b", "encoded_control");
    refused("get", "/../../x", "path_traversal");
    refused("get", "/bad%GG", "invalid_percent_encoding");
    refused("get", "/a#b", "fragment_not_allowed");
    refused("get", "/a\\b", "backslash_not_allowed");
    refused("get", "", "empty_target");
}

#[test]
fn request_target_targets_are_bounded() {
    let request = sample_request_target(11);
    assert_eq!(request.target.len(), 8193);
    assert_eq!(
        request_target_rules::normalize_request_target(&request),
        Err(PolyguardError::LimitExceeded {
            limit: "target_bytes".to_owned(),
            max: 8192,
            actual: 8193,
        })
    );
}

#[test]
fn request_target_needless_escapes_change_nothing() {
    let expected = origin("/a-b/c~1?q=%2F&x=z", "/a-b/c~1");
    expect("get", "/a-b/c~1?q=%2F&x=z", expected.clone());
    for target in [
        "/%61-b/c~1?q=%2F&x=z",
        "/a%2Db/c~1?q=%2F&x=z",
        "/a%2db/c~1?q=%2F&x=z",
        "/a-b/c%7E1?q=%2F&x=z",
        "/a-b/c~%31?q=%2F&x=z",
        "/a-b/c~1?%71=%2F&x=z",
        "/a-b/c~1?q=%2F&x=%7a",
    ] {
        expect("get", target, expected.clone());
    }
}

#[test]
fn request_target_normalizing_leniently_twice_is_normalizing_once() {
    let normalize = request_target_typed_matrix::normalize_request_target;
    for (given, expected) in [
        ("/a/..", "/"),
        ("//a/..", "/"),
        ("/\u{e9}/%c3%a9/../b/.?q=%7e\u{e9}", "/\u{e9}/b/?q=~\u{e9}"),
        ("/%2e/a/%2E%2e/b?%3f", "/b?%3F"),
    ] {
        let once = normalize(&line_with("get", given)).unwrap();
        assert_eq!(once.path_and_query, expected);
        assert_eq!(normalize(&line_with("get", &once.path_and_query)), Ok(once.clone()));
        assert!(once.routing_path.starts_with('/'));
        assert!(once.routing_path.split('/').all(|segment| segment != "." && segment != ".."));
    }
}
