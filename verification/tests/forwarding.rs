use polyform_polyguard::implementations::{
    forwarding_central_transition, forwarding_decision_table, forwarding_direct_match,
    forwarding_primitive_boundary, forwarding_transition_model,
};
use polyform_polyguard::ip::{parse_ipv6, render_ipv6};
use polyform_polyguard::registry::evaluate_forwarding;
use polyform_polyguard::samples::{block, sample_forwarding};
use polyform_polyguard::types::{ForwardingPolicy, ForwardingResult, PolyguardError};

fn policy(trust_incoming: bool, client_ip: &str) -> ForwardingPolicy {
    ForwardingPolicy {
        trust_incoming,
        client_ip: client_ip.to_owned(),
        proto: "https".to_owned(),
        host: "example.test".to_owned(),
    }
}

fn expect(
    policy: &ForwardingPolicy,
    fields: &[(&str, &str)],
    expected: Result<ForwardingResult, PolyguardError>,
) {
    let attempts = evaluate_forwarding(policy, &block(fields.to_vec()));
    assert_eq!(attempts.len(), 5);
    for attempt in attempts {
        assert_eq!(attempt.result, expected, "{} on {:?}", attempt.id, fields);
    }
}

fn values(forwarded: &str, x_for: &str, x_proto: &str, x_host: &str) -> ForwardingResult {
    ForwardingResult {
        forwarded: forwarded.to_owned(),
        x_forwarded_for: x_for.to_owned(),
        x_forwarded_proto: x_proto.to_owned(),
        x_forwarded_host: x_host.to_owned(),
    }
}

fn too_long(actual: usize) -> PolyguardError {
    PolyguardError::LimitExceeded {
        limit: "forwarding_value_bytes".to_owned(),
        max: 1024,
        actual,
    }
}

const HOP: &str = "for=192.0.2.1;proto=https;host=\"example.test\"";

#[test]
fn forwarding_untrusted_fields_are_replaced() {
    let expected = values(HOP, "192.0.2.1", "https", "example.test");
    expect(&policy(false, "192.0.2.1"), &[], Ok(expected.clone()));
    expect(
        &policy(false, "192.0.2.1"),
        &[("forwarded", "one"), ("forwarded", "two"), ("x-forwarded-for", "")],
        Ok(expected),
    );
}

#[test]
fn forwarding_trusted_fields_are_extended() {
    expect(
        &policy(true, "192.0.2.1"),
        &[("x-forwarded-for", "old"), ("forwarded", "for=a, for=b"), ("host", "x")],
        Ok(values(
            &format!("for=a, for=b, {HOP}"),
            "old, 192.0.2.1",
            "https",
            "example.test",
        )),
    );
}

#[test]
fn forwarding_ipv6_clients_stand_in_brackets_and_quotes() {
    expect(
        &policy(false, "2001:db8::1"),
        &[],
        Ok(values(
            "for=\"[2001:db8::1]\";proto=https;host=\"example.test\"",
            "2001:db8::1",
            "https",
            "example.test",
        )),
    );
}

#[test]
fn forwarding_spellings_of_an_address_are_treated_differently() {
    let spelled = policy(false, "2001:DB8:0::1");
    let none = block(vec![]);
    let rendered = forwarding_decision_table::apply_forwarding_policy(&spelled, &none).unwrap();
    assert_eq!(rendered.x_forwarded_for, "2001:db8::1");
    let refused = Err(PolyguardError::InvalidForwardingInput);
    assert_eq!(forwarding_direct_match::apply_forwarding_policy(&spelled, &none), refused);
    assert_eq!(forwarding_central_transition::apply_forwarding_policy(&spelled, &none), refused);
    let kept = forwarding_primitive_boundary::apply_forwarding_policy(&spelled, &none).unwrap();
    assert_eq!(kept.x_forwarded_for, "2001:DB8:0::1");
    let kept = forwarding_transition_model::apply_forwarding_policy(&spelled, &none).unwrap();
    assert_eq!(kept.forwarded, "for=\"[2001:DB8:0::1]\";proto=https;host=\"example.test\"");
}

#[test]
fn forwarding_bad_policies_are_refused() {
    let refused = Err(PolyguardError::InvalidForwardingInput);
    for client in ["bad", "", "192.0.2.01", "192.0.2", "[::1]", "fe80::1%eth0", "1.2.3.4.5"] {
        expect(&policy(false, client), &[], refused.clone());
    }
    let (upper, headers) = sample_forwarding(10);
    for attempt in evaluate_forwarding(&upper, &headers) {
        assert_eq!(attempt.result, refused, "{}", attempt.id);
    }
    for host in ["", "a b", "a,b", "a:0", "[::1", "-a"] {
        let mut named = policy(false, "192.0.2.1");
        named.host = host.to_owned();
        expect(&named, &[], refused.clone());
    }
}

#[test]
fn forwarding_bad_incoming_values_are_refused() {
    let refused = Err(PolyguardError::InvalidForwardingInput);
    for value in ["", " ", "x,,y", ",x", "x,", "x, ", "a\tb", "\u{e9}"] {
        expect(&policy(true, "192.0.2.1"), &[("x-forwarded-for", value)], refused.clone());
    }
    expect(
        &policy(true, "192.0.2.1"),
        &[("forwarded", "one"), ("forwarded", "two")],
        refused.clone(),
    );
}

#[test]
fn forwarding_values_are_bounded() {
    let long = "a".repeat(1025);
    expect(&policy(true, "192.0.2.1"), &[("x-forwarded-for", &long)], Err(too_long(1025)));
    let fits = "a".repeat(1013);
    expect(
        &policy(true, "192.0.2.1"),
        &[("x-forwarded-for", &fits)],
        Ok(values(HOP, &format!("{fits}, 192.0.2.1"), "https", "example.test")),
    );
    let over = "a".repeat(1014);
    expect(&policy(true, "192.0.2.1"), &[("x-forwarded-for", &over)], Err(too_long(1025)));
}

#[test]
fn forwarding_a_hop_has_to_fit_by_itself() {
    let mut wide = policy(true, "192.0.2.1");
    wide.host = format!("a:{}80", "0".repeat(1020));
    let headers = block(vec![("forwarded", "x")]);
    let alone = 19 + 9 + 5 + wide.host.len();
    for apply in [
        forwarding_decision_table::apply_forwarding_policy,
        forwarding_direct_match::apply_forwarding_policy,
        forwarding_primitive_boundary::apply_forwarding_policy,
    ] {
        assert_eq!(apply(&wide, &headers), Err(too_long(alone)));
    }
    for apply in [
        forwarding_central_transition::apply_forwarding_policy,
        forwarding_transition_model::apply_forwarding_policy,
    ] {
        assert_eq!(apply(&wide, &headers), Err(too_long(alone + 3)));
    }
}

#[test]
fn forwarding_names_are_recognized_by_case_or_not() {
    let headers = block(vec![("X-Forwarded-For", "old")]);
    let trusted = policy(true, "192.0.2.1");
    let model = forwarding_transition_model::apply_forwarding_policy(&trusted, &headers).unwrap();
    assert_eq!(model.x_forwarded_for, "old, 192.0.2.1");
    let table = forwarding_decision_table::apply_forwarding_policy(&trusted, &headers).unwrap();
    assert_eq!(table.x_forwarded_for, "192.0.2.1");
}

#[test]
fn forwarding_ipv6_addresses_have_one_canonical_text() {
    for (spelled, canonical) in [
        ("::", "::"),
        ("0:0:0:0:0:0:0:1", "::1"),
        ("2001:DB8:0:0:1:0:0:1", "2001:db8::1:0:0:1"),
        ("1:0:0:2:0:0:0:3", "1:0:0:2::3"),
        ("1:0:2:3:4:5:6:7", "1:0:2:3:4:5:6:7"),
        ("::ffff:192.0.2.1", "::ffff:192.0.2.1"),
        ("::ffff:c000:0201", "::ffff:192.0.2.1"),
        ("0:0:0:0:0:0:102:304", "::102:304"),
        ("fe80::", "fe80::"),
        ("00ab:0c:d::", "ab:c:d::"),
    ] {
        let segments = parse_ipv6(spelled.as_bytes()).unwrap();
        let text = render_ipv6(&segments);
        assert_eq!(String::from_utf8(text.clone()).unwrap(), canonical);
        assert_eq!(parse_ipv6(&text), Some(segments));
    }
}

#[test]
fn forwarding_trusted_values_come_before_those_of_the_boundary() {
    let fields = vec![("forwarded", "for=a"), ("x-forwarded-host", "b, c"), ("accept", "d")];
    let extended = evaluate_forwarding(&policy(true, "192.0.2.1"), &block(fields.clone()));
    let alone = evaluate_forwarding(&policy(false, "192.0.2.1"), &block(fields));
    for (one, other) in extended.into_iter().zip(alone) {
        let (one, other) = (one.result.unwrap(), other.result.unwrap());
        assert_eq!(one.forwarded, format!("for=a, {}", other.forwarded));
        assert_eq!(one.x_forwarded_for, other.x_forwarded_for);
        assert_eq!(one.x_forwarded_proto, other.x_forwarded_proto);
        assert_eq!(one.x_forwarded_host, format!("b, c, {}", other.x_forwarded_host));
    }
}

#[test]
fn forwarding_no_member_of_a_value_is_blank() {
    let fields = vec![("x-forwarded-for", " a ,b"), ("x-forwarded-host", "c,d"), ("forwarded", "e")];
    for attempt in evaluate_forwarding(&policy(true, "192.0.2.1"), &block(fields)) {
        let result = attempt.result.unwrap();
        for value in [
            result.forwarded,
            result.x_forwarded_for,
            result.x_forwarded_proto,
            result.x_forwarded_host,
        ] {
            assert!(!value.is_empty());
            assert!(value.split(',').all(|member| !member.trim().is_empty()), "{value}");
        }
    }
}
