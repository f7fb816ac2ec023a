use unity_versions_service::catalog::Catalog;
use unity_versions_service::channel::Channel;
use unity_versions_service::prefix::PrefixSpec;
use unity_versions_service::resolve::{resolve, Resolution};
use unity_versions_service::version::Version;

fn candidates(items: &[(&str, &str)]) -> Vec<(Version, String)> {
    items.iter().map(|(v, h)| (Version::parse(v).unwrap(), h.to_string())).collect()
}

fn found(r: Resolution) -> Option<(String, String)> {
    match r {
        Resolution::Found(v, h) => Some((v.raw().clone(), h)),
        Resolution::NoMatch => None,
    }
}

fn sample() -> Vec<(Version, String)> {
    candidates(&[
        ("2018.4.10f1", "aaa"),
        ("2018.4.11f1", "bbb"),
        ("2019.1.0f1", "ccc"),
        ("2019.1.0b5", "ddd"),
    ])
}

#[test]
fn end_to_end_resolution() {
    let c = sample();
    assert_eq!(
        found(resolve(&c, PrefixSpec::Major(2018), Channel::Final)),
        Some(("2018.4.11f1".to_string(), "bbb".to_string()))
    );
    assert_eq!(
        found(resolve(&c, PrefixSpec::MajorMinor(2019, 1), Channel::Beta)),
        Some(("2019.1.0b5".to_string(), "ddd".to_string()))
    );
    assert_eq!(found(resolve(&c, PrefixSpec::Major(2019), Channel::Patch)), None);
}

#[test]
fn empty_candidates_give_no_match() {
    let c: Vec<(Version, String)> = Vec::new();
    for ch in [Channel::Final, Channel::Patch, Channel::Beta, Channel::Alpha] {
        assert!(matches!(resolve(&c, PrefixSpec::Major(2019), ch), Resolution::NoMatch));
    }
}

#[test]
fn picks_highest_patch_then_sequence() {
    let c = candidates(&[
        ("2019.1.1f1", "a"),
        ("2019.1.2f1", "b"),
        ("2019.1.2f2", "c"),
        ("2019.2.0b1", "d"),
        ("2019.3.0f1", "e"),
    ]);
    assert_eq!(found(resolve(&c, PrefixSpec::MajorMinor(2019, 1), Channel::Final)).unwrap().1, "c");
    assert_eq!(found(resolve(&c, PrefixSpec::Full(2019, 1, 2), Channel::Final)).unwrap().1, "c");
    assert_eq!(found(resolve(&c, PrefixSpec::Full(2019, 1, 1), Channel::Final)).unwrap().1, "a");
    assert_eq!(found(resolve(&c, PrefixSpec::Major(2019), Channel::Final)).unwrap().1, "e");
    assert_eq!(found(resolve(&c, PrefixSpec::Major(2019), Channel::Beta)).unwrap().1, "d");
    assert_eq!(found(resolve(&c, PrefixSpec::Full(2019, 1, 3), Channel::Final)), None);
}

#[test]
fn result_does_not_depend_on_order() {
    let a = candidates(&[("2019.1.2f1", "x"), ("2019.1.10f1", "y"), ("2019.1.3f1", "z")]);
    let b = candidates(&[("2019.1.3f1", "z"), ("2019.1.10f1", "y"), ("2019.1.2f1", "x")]);
    assert_eq!(found(resolve(&a, PrefixSpec::Major(2019), Channel::Final)).unwrap().1, "y");
    assert_eq!(found(resolve(&b, PrefixSpec::Major(2019), Channel::Final)).unwrap().1, "y");
}

#[test]
fn one_release_written_two_ways_resolves_alike_in_any_order() {
    let a = candidates(&[("2019.01.2f1", "b"), ("2019.1.2f1", "a")]);
    let b = candidates(&[("2019.1.2f1", "a"), ("2019.01.2f1", "b")]);
    let expected = Some(("2019.1.2f1".to_string(), "a".to_string()));
    assert_eq!(found(resolve(&a, PrefixSpec::Full(2019, 1, 2), Channel::Final)), expected);
    assert_eq!(found(resolve(&b, PrefixSpec::Full(2019, 1, 2), Channel::Final)), expected);
}

#[test]
fn same_text_with_two_hashes_resolves_to_the_later_hash() {
    let a = candidates(&[("2019.1.2f1", "x"), ("2019.1.2f1", "y")]);
    let b = candidates(&[("2019.1.2f1", "y"), ("2019.1.2f1", "x")]);
    assert_eq!(found(resolve(&a, PrefixSpec::Major(2019), Channel::Final)).unwrap().1, "y");
    assert_eq!(found(resolve(&b, PrefixSpec::Major(2019), Channel::Final)).unwrap().1, "y");
}

#[test]
fn prefix_matching_and_text() {
    let v = Version::parse("2019.1.2f1").unwrap();
    assert!(PrefixSpec::Major(2019).matches(&v));
    assert!(PrefixSpec::MajorMinor(2019, 1).matches(&v));
    assert!(PrefixSpec::Full(2019, 1, 2).matches(&v));
    assert!(!PrefixSpec::Full(2019, 1, 3).matches(&v));
    assert!(!PrefixSpec::MajorMinor(2018, 1).matches(&v));
    assert_eq!(PrefixSpec::Major(2019).text(), "2019");
    assert_eq!(PrefixSpec::MajorMinor(2019, 1).text(), "2019.1");
    assert_eq!(PrefixSpec::Full(2019, 1, 2).text(), "2019.1.2");
}

fn entries(items: &[(&str, &str)]) -> Vec<(String, String)> {
    items.iter().map(|(k, v)| (k.to_string(), v.to_string())).collect()
}

#[test]
fn catalog_load_and_exact() {
    let cat = Catalog::load(&entries(&[("2018.4.10f1", "aaa"), ("2019.1.0b5", "ddd")])).unwrap();
    assert_eq!(cat.all().len(), 2);
    assert_eq!(cat.all()[1].1, "ddd");
    assert_eq!(cat.exact("2019.1.0b5"), Some("ddd".to_string()));
    assert_eq!(cat.exact("2019.1.0b6"), None);
}

#[test]
fn catalog_load_fails_on_first_bad_key() {
    let e = Catalog::load(&entries(&[("2018.4.10f1", "aaa"), ("bogus", "x"), ("2019.1", "y")]))
        .unwrap_err();
    assert_eq!(e.input, "bogus");
}

#[test]
fn catalog_groupings() {
    let cat = Catalog::load(&entries(&[
        ("2018.4.10f1", "aaa"),
        ("2019.1.0f1", "ccc"),
        ("2018.4.11f1", "bbb"),
        ("2019.2.0b5", "ddd"),
    ]))
    .unwrap();
    let majors = cat.by_major();
    assert_eq!(majors.len(), 2);
    let g2018 = &majors.iter().find(|g| g.0 == PrefixSpec::Major(2018)).unwrap().1;
    let texts: Vec<&str> = g2018.iter().map(|v| v.raw().as_str()).collect();
    assert_eq!(texts, vec!["2018.4.10f1", "2018.4.11f1"]);
    let lines = cat.by_major_minor();
    assert_eq!(lines.len(), 3);
    let g = &lines.iter().find(|g| g.0 == PrefixSpec::MajorMinor(2019, 2)).unwrap().1;
    assert_eq!(g.len(), 1);
    assert_eq!(g[0].raw().as_str(), "2019.2.0b5");
}
