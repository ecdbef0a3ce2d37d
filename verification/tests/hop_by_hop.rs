use polyform_polyguard::implementations::hop_by_hop_token_trie::TokenTrie;
use polyform_polyguard::registry::evaluate_hop_by_hop;
use polyform_polyguard::samples::block;
use polyform_polyguard::types::{HeaderBlock, PolyguardError, SanitizedHeaders};

fn expect(fields: &[(&str, &str)], expected: Result<SanitizedHeaders, PolyguardError>) {
    let attempts = evaluate_hop_by_hop(&block(fields.to_vec()));
    assert_eq!(attempts.len(), 5);
    for attempt in attempts {
        assert_eq!(attempt.result, expected, "{} on {:?}", attempt.id, fields);
    }
}

fn sanitized(kept: &[(&str, &str)], removed: &[&str]) -> SanitizedHeaders {
    SanitizedHeaders {
        fields: block(kept.to_vec()).fields,
        removed_names: removed.iter().map(|name| (*name).to_owned()).collect(),
    }
}

#[test]
fn hop_by_hop_nominated_fields_are_removed() {
    expect(
        &[("connection", "x-hop"), ("x-hop", "secret"), ("x-end", "ok")],
        Ok(sanitized(&[("x-end", "ok")], &["connection", "x-hop"])),
    );
    expect(
        &[("x-hop", "a"), ("connection", "close, X-HOP"), ("x-hop", "b")],
        Ok(sanitized(&[], &["close", "connection", "x-hop"])),
    );
}

#[test]
fn hop_by_hop_fixed_fields_are_removed() {
    expect(&[("transfer-encoding", "chunked")], Ok(sanitized(&[], &["transfer-encoding"])));
    expect(&[("te", "trailers")], Ok(sanitized(&[], &["te"])));
    expect(&[("proxy-authorization", "x")], Ok(sanitized(&[], &["proxy-authorization"])));
}

#[test]
fn hop_by_hop_other_fields_stay_in_order() {
    let fields = [("authorization", "x"), ("cookie", "y"), ("host", "z"), ("cookie", "w")];
    expect(&fields, Ok(sanitized(&fields, &[])));
    expect(&[], Ok(sanitized(&[], &[])));
}

#[test]
fn hop_by_hop_bad_nominations_are_refused() {
    let refused = |index: usize| {
        Err(PolyguardError::InvalidHeader {
            index,
            reason: "invalid_connection_token".to_owned(),
        })
    };
    expect(&[("connection", "close,,upgrade")], refused(0));
    expect(&[("connection", "")], refused(0));
    expect(&[("a", "b"), ("connection", "x y")], refused(1));
}

#[test]
fn hop_by_hop_sanitizing_twice_removes_nothing_more() {
    let fields = [("connection", "x-hop"), ("x-hop", "secret"), ("x-end", "ok")];
    for attempt in evaluate_hop_by_hop(&block(fields.to_vec())) {
        let once = attempt.result.unwrap();
        let again = HeaderBlock { fields: once.fields.clone(), bytes_consumed: 0 };
        for second in evaluate_hop_by_hop(&again) {
            let twice = second.result.unwrap();
            assert_eq!(twice.fields, once.fields);
            assert!(twice.removed_names.is_empty());
        }
    }
}

#[test]
fn hop_by_hop_tokens_are_kept_apart() {
    let mut tokens = TokenTrie::new();
    assert!(!tokens.contains(b""));
    assert!(tokens.insert(b"keep"));
    assert!(!tokens.insert(b"keep"));
    for other in [&b""[..], b"k", b"kee", b"keeps", b"Keep"] {
        assert!(!tokens.contains(other));
    }
    assert!(tokens.insert(b"kee"));
    assert!(tokens.insert(b""));
    assert!(tokens.contains(b"keep") && tokens.contains(b"kee") && tokens.contains(b""));
    assert!(!tokens.contains(b"k"));
}
