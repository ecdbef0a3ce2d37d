use polyform_polyguard::host::parse_endpoint;
use polyform_polyguard::implementations::{
    authority_endpoint_algebra, authority_invariant_table, authority_phases,
    authority_segment_pipeline,
};
use polyform_polyguard::registry::evaluate_authority;
use polyform_polyguard::samples::{block, sample_authority, target};
use polyform_polyguard::types::{
    EffectiveAuthority, NormalizedTarget, PolyguardError, TargetForm,
};

fn expect(
    target: &NormalizedTarget,
    fields: &[(&str, &str)],
    expected: Result<EffectiveAuthority, PolyguardError>,
) {
    let attempts = evaluate_authority(target, &block(fields.to_vec()));
    assert_eq!(attempts.len(), 5);
    for attempt in attempts {
        assert_eq!(attempt.result, expected, "{} on {:?}", attempt.id, fields);
    }
}

fn effective(host: &str, port: Option<u16>) -> EffectiveAuthority {
    EffectiveAuthority { host: host.to_owned(), port }
}

fn absolute(scheme: &str, authority: &str) -> NormalizedTarget {
    NormalizedTarget {
        form: TargetForm::Absolute,
        scheme: Some(scheme.to_owned()),
        authority: Some(authority.to_owned()),
        path_and_query: "/".to_owned(),
        routing_path: "/".to_owned(),
    }
}

#[test]
fn authority_the_host_field_names_the_authority() {
    expect(&target("/"), &[("host", "Example.Test.:8080")], Ok(effective("example.test", Some(8080))));
    expect(&target("/"), &[("host", "a.test.")], Ok(effective("a.test", None)));
    expect(
        &target("/"),
        &[("host", "[2001:DB8::1]:443")],
        Ok(effective("[2001:db8::1]", Some(443))),
    );
}

#[test]
fn authority_there_is_one_host_field() {
    expect(&target("/"), &[], Err(PolyguardError::MissingHost));
    expect(&target("/"), &[("host", "x"), ("host", "x")], Err(PolyguardError::MultipleHost));
    let (target, headers) = sample_authority(3);
    for parse in [
        authority_endpoint_algebra::reconcile_authority,
        authority_invariant_table::reconcile_authority,
        authority_phases::reconcile_authority,
        authority_segment_pipeline::reconcile_authority,
    ] {
        assert_eq!(parse(&target, &headers), Err(PolyguardError::MultipleHost));
    }
}

#[test]
fn authority_bad_hosts_are_refused() {
    for host in ["fe80::1", "a:0", "-a.test", "u@a.test", "a:65536", "a b", "[::1", ""] {
        expect(&target("/"), &[("host", host)], Err(PolyguardError::InvalidAuthority));
    }
}

#[test]
fn authority_authorities_have_to_agree() {
    expect(
        &absolute("http", "example.test:80"),
        &[("host", "example.test")],
        Ok(effective("example.test", None)),
    );
    expect(
        &absolute("http", "example.test"),
        &[("host", "evil.test")],
        Err(PolyguardError::AuthorityMismatch),
    );
}

#[test]
fn authority_the_default_port_is_left_out() {
    expect(
        &absolute("https", "example.test:443"),
        &[("host", "example.test:443")],
        Ok(effective("example.test", None)),
    );
    expect(
        &absolute("https", "example.test:80"),
        &[("host", "example.test:80")],
        Ok(effective("example.test", Some(80))),
    );
}

#[test]
fn authority_a_reconciled_authority_is_canonical() {
    for given in ["EXAMPLE.test.", "[::FFFF:1]:0443", "a.test:08080"] {
        for attempt in evaluate_authority(&target("/"), &block(vec![("host", given)])) {
            let authority = attempt.result.unwrap();
            let spelled = match authority.port {
                Some(port) => format!("{}:{port}", authority.host),
                None => authority.host.clone(),
            };
            assert_eq!(spelled, spelled.to_ascii_lowercase(), "{}", attempt.id);
            assert_eq!(parse_endpoint(spelled.as_bytes()), Some(authority), "{}", attempt.id);
        }
    }
}
