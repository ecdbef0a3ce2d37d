use polyform_polyguard::registry::evaluate_route;
use polyform_polyguard::samples::{sample_route, target};
use polyform_polyguard::types::{EffectiveAuthority, PolyguardError, RouteMatch, RouteRule};

fn expect(host: &str, path: &str, routes: &[RouteRule], expected: Result<RouteMatch, PolyguardError>) {
    let authority = EffectiveAuthority { host: host.to_owned(), port: Some(8080) };
    let attempts = evaluate_route(&authority, &target(path), routes);
    assert_eq!(attempts.len(), 5);
    for attempt in attempts {
        assert_eq!(attempt.result, expected, "{} on {}", attempt.id, path);
    }
}

fn rule(host: &str, prefix: &str, upstream: &str, order: usize) -> RouteRule {
    RouteRule {
        host: host.to_owned(),
        path_prefix: prefix.to_owned(),
        upstream: upstream.to_owned(),
        declaration_order: order,
    }
}

fn chosen(upstream: &str, order: usize) -> Result<RouteMatch, PolyguardError> {
    Ok(RouteMatch { upstream: upstream.to_owned(), declaration_order: order })
}

fn invalid(reason: &str) -> Result<RouteMatch, PolyguardError> {
    Err(PolyguardError::InvalidRoute { reason: reason.to_owned() })
}

#[test]
fn route_the_longest_prefix_wins() {
    let routes =
        [rule("example.test", "/", "root", 9), rule("example.test", "/api", "api", 2)];
    expect("example.test", "/", &routes, chosen("root", 9));
    expect("example.test", "/api", &routes, chosen("api", 2));
    expect("example.test", "/api/x", &routes, chosen("api", 2));
    expect("example.test", "/apix", &routes, chosen("root", 9));
    expect("example.test", "/api?q", &routes, chosen("api", 2));
}

#[test]
fn route_of_equal_prefixes_the_first_declared_wins() {
    let routes = [rule("a.test", "/x", "late", 7), rule("a.test", "/x", "early", 3)];
    expect("a.test", "/x/y", &routes, chosen("early", 3));
}

#[test]
fn route_other_hosts_have_no_route() {
    let routes = [rule("example.test", "/", "root", 9)];
    expect("other.test", "/", &routes, Err(PolyguardError::NoRoute));
    expect("other.test", "/", &[], Err(PolyguardError::NoRoute));
}

#[test]
fn route_bad_rules_are_refused() {
    let (_, _, slash) = sample_route(6);
    expect("example.test", "/api/x", &slash, invalid("invalid_path_prefix"));
    let (_, _, upstream) = sample_route(7);
    expect("example.test", "/api/x", &upstream, invalid("invalid_upstream"));
    let (_, _, order) = sample_route(8);
    expect("example.test", "/api/x", &order, invalid("duplicate_declaration_order"));
    expect("a.test", "/", &[rule("A.test", "/", "u", 0)], invalid("invalid_host"));
}

#[test]
fn route_the_number_of_rules_is_bounded() {
    let (_, _, routes) = sample_route(9);
    assert_eq!(routes.len(), 257);
    expect(
        "example.test",
        "/",
        &routes,
        Err(PolyguardError::LimitExceeded {
            limit: "route_count".to_owned(),
            max: 256,
            actual: 257,
        }),
    );
    expect("example.test", "/", &routes[..256], chosen("u", 0));
}

#[test]
fn route_order_port_and_query_play_no_part() {
    let mut routes = vec![
        rule("a.test", "/", "root", 4),
        rule("a.test", "/x", "late", 7),
        rule("a.test", "/x", "early", 3),
        rule("b.test", "/x/y", "other", 0),
    ];
    for _ in 0..routes.len() {
        for port in [None, Some(1), Some(443)] {
            for path in ["/x/y", "/x/y?q", "/x/y?"] {
                let authority = EffectiveAuthority { host: "a.test".to_owned(), port };
                for attempt in evaluate_route(&authority, &target(path), &routes) {
                    assert_eq!(attempt.result, chosen("early", 3), "{}", attempt.id);
                }
            }
        }
        routes.rotate_left(1);
    }
}
