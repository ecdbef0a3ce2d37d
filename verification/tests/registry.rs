use polyform_polyguard::registry::{
    descriptor, entry_of, provides, Operation, OPERATIONS, VERSIONS,
};
use polyform_polyguard::samples::{
    choice_of, mix, sample_telemetry, sample_trailer_section, sample_upgrade, target,
};
use polyform_polyguard::types::BodyFraming;

#[test]
fn registry_operations_are_found_by_name() {
    for index in 0..OPERATIONS {
        let operation = Operation::listed(index);
        assert_eq!(Operation::named(operation.name()), Some(operation));
    }
    assert_eq!(Operation::named("match_route"), Some(Operation::MatchRoute));
    assert_eq!(Operation::named("match_routes"), None);
}

#[test]
fn registry_implementations_have_a_source_file() {
    assert_eq!(
        descriptor("route-direct-domain"),
        Some("src/implementations/route_direct.rs")
    );
    assert_eq!(
        descriptor("telemetry-word-composition"),
        Some("src/implementations/telemetry_word_composition.rs")
    );
    assert_eq!(descriptor("route-direct"), None);
    for index in 0..OPERATIONS {
        for version in 0..VERSIONS {
            let (id, path) = entry_of(Operation::listed(index), version);
            assert_eq!(descriptor(id), Some(path));
        }
    }
}

#[test]
fn registry_some_implementations_are_not_provided() {
    assert!(provides(Operation::ParseTrailerSection, 0));
    assert!(!provides(Operation::ParseTrailerSection, 1));
    assert!(!provides(Operation::DecideUpgrade, 4));
    assert!(provides(Operation::MatchRoute, 4));
}

#[test]
fn registry_mixing_is_reproducible() {
    assert_eq!(mix(0, 0), 0);
    assert_eq!(mix(0, 1), 0xe220_a839_7b1d_cdaf);
}

#[test]
fn registry_consecutive_cases_are_consecutive_samples() {
    for seed in [0, 1, 7, 12_345] {
        for case in 0..24 {
            let next = (choice_of(seed, case) + 1) % 12;
            assert_eq!(choice_of(seed, case + 1), next);
        }
    }
    assert_eq!(choice_of(0, 5), 5);
}

#[test]
fn registry_samples_are_as_listed() {
    assert_eq!(sample_telemetry(11), ("/private", false));
    assert_eq!(
        sample_trailer_section(10),
        (b"\r\n".to_vec(), vec!["x".to_owned(), "x".to_owned()])
    );
    let (request, headers, framing) = sample_upgrade(3);
    assert_eq!(request.method, "get");
    assert_eq!(headers.fields[1].value, b"h2c".to_vec());
    assert_eq!(headers.fields.len(), 4);
    assert_eq!(framing, BodyFraming::NoBody);
    assert_eq!(sample_upgrade(8).2, BodyFraming::Chunked);
}

#[test]
fn registry_seeds_stay_apart() {
    let mut mixed: Vec<u64> = (0..512).map(|seed| mix(seed, 7)).collect();
    mixed.sort();
    mixed.dedup();
    assert_eq!(mixed.len(), 512);
}

#[test]
fn registry_sample_targets_are_cut_at_the_query() {
    let sample = target("/\u{e9}/\u{1f600}?q=\u{e9}?r");
    assert_eq!(sample.path_and_query, "/\u{e9}/\u{1f600}?q=\u{e9}?r");
    assert_eq!(sample.routing_path, "/\u{e9}/\u{1f600}");
}
