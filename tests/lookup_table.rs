use unity_versions_service::catalog::Catalog;
use unity_versions_service::channel::Channel;
use unity_versions_service::prefix::PrefixSpec;
use unity_versions_service::table::{CompatKey, LookupTable};
use unity_versions_service::update::{commit_message, merge_releases, split_release_line};

fn entries(items: &[(&str, &str)]) -> Vec<(String, String)> {
    items.iter().map(|(k, v)| (k.to_string(), v.to_string())).collect()
}

fn sample_table() -> LookupTable {
    let cat = Catalog::load(&entries(&[
        ("2018.4.10f1", "aaa"),
        ("2018.4.11f1", "bbb"),
        ("2019.1.0f1", "ccc"),
        ("2019.1.0b5", "ddd"),
    ]))
    .unwrap();
    LookupTable::build(&cat)
}

fn hash(t: &LookupTable, p: PrefixSpec, ch: Option<Channel>) -> Option<String> {
    t.compatible(p, ch)
}

#[test]
fn end_to_end_table() {
    let t = sample_table();
    assert_eq!(hash(&t, PrefixSpec::MajorMinor(2018, 4), None), Some("bbb".to_string()));
    assert_eq!(hash(&t, PrefixSpec::Major(2018), Some(Channel::Final)), Some("bbb".to_string()));
    assert_eq!(hash(&t, PrefixSpec::MajorMinor(2019, 1), Some(Channel::Beta)), Some("ddd".to_string()));
    assert_eq!(hash(&t, PrefixSpec::Major(2019), Some(Channel::Patch)), None);
    assert_eq!(hash(&t, PrefixSpec::Full(2018, 4, 10), None), Some("aaa".to_string()));
    assert_eq!(hash(&t, PrefixSpec::Major(2017), None), None);
}

#[test]
fn exact_lookup_is_literal() {
    let t = sample_table();
    assert_eq!(t.exact("2018.4.10f1"), Some("aaa".to_string()));
    assert_eq!(t.exact("2019.1.0b5"), Some("ddd".to_string()));
    assert_eq!(t.exact("2018.4"), None);
    assert_eq!(t.exact("2018.4.12f1"), None);
    assert_eq!(t.exact_entries().len(), 4);
}

#[test]
fn bare_prefix_follows_final() {
    let t = sample_table();
    let prefixes = [
        PrefixSpec::Major(2018),
        PrefixSpec::Major(2019),
        PrefixSpec::MajorMinor(2018, 4),
        PrefixSpec::MajorMinor(2019, 1),
        PrefixSpec::Full(2018, 4, 10),
        PrefixSpec::Full(2018, 4, 11),
        PrefixSpec::Full(2019, 1, 0),
    ];
    for p in prefixes {
        assert_eq!(hash(&t, p, None), hash(&t, p, Some(Channel::Final)));
        assert!(hash(&t, p, None).is_some());
    }
    let beta_only = LookupTable::build(&Catalog::load(&entries(&[("2020.1.0b1", "x")])).unwrap());
    assert_eq!(hash(&beta_only, PrefixSpec::Major(2020), None), None);
    assert_eq!(hash(&beta_only, PrefixSpec::Major(2020), Some(Channel::Beta)), Some("x".to_string()));
}

#[test]
fn table_has_no_tombstones() {
    let t = sample_table();
    // 2018: four prefixes, each with Final and bare; 2019: three, each with Final, bare and Beta
    assert_eq!(t.compatible_entries().len(), 8 + 9);
    let paths: Vec<String> = t.compatible_entries().iter().map(|e| e.0.path()).collect();
    assert!(paths.contains(&"2018.4/final".to_string()));
    assert!(paths.contains(&"2019.1.0/beta".to_string()));
    assert!(paths.contains(&"2019".to_string()));
    assert!(!paths.contains(&"2019/patch".to_string()));
}

#[test]
fn compat_key_paths() {
    let k = CompatKey { prefix: PrefixSpec::MajorMinor(2019, 1), channel: Some(Channel::Alpha) };
    assert_eq!(k.path(), "2019.1/alpha");
    let b = CompatKey { prefix: PrefixSpec::Full(2019, 1, 2), channel: None };
    assert_eq!(b.path(), "2019.1.2");
}

#[test]
fn empty_catalog_gives_empty_table() {
    let t = LookupTable::build(&Catalog::load(&Vec::new()).unwrap());
    assert!(t.exact_entries().is_empty());
    assert!(t.compatible_entries().is_empty());
}

#[test]
fn merge_is_insert_only() {
    let mut remote = entries(&[("2018.4.10f1", "aaa")]);
    let feed = entries(&[
        ("2018.4.10f1", "changed"),
        ("2019.1.0f1", "ccc"),
        ("not a version", "zzz"),
        ("2019.01.0f1", "dup"),
        ("2019.2.0b1", "eee"),
    ]);
    let added = merge_releases(&mut remote, &feed);
    assert_eq!(added, vec!["2019.1.0f1".to_string(), "2019.2.0b1".to_string()]);
    assert_eq!(
        remote,
        entries(&[("2018.4.10f1", "aaa"), ("2019.1.0f1", "ccc"), ("2019.2.0b1", "eee")])
    );
}

#[test]
fn merge_uses_canonical_keys() {
    let mut remote = Vec::new();
    let added = merge_releases(&mut remote, &entries(&[("2019.01.02f03", "h")]));
    assert_eq!(added, vec!["2019.1.2f3".to_string()]);
    assert_eq!(remote[0].0, "2019.1.2f3");
}

#[test]
fn commit_message_lists_additions() {
    let added = vec!["2019.1.0f1".to_string(), "2019.2.0b1".to_string()];
    assert_eq!(
        commit_message("Update Unity versions", &added),
        "Update Unity versions\n* [ADD] version 2019.1.0f1\n* [ADD] version 2019.2.0b1\n"
    );
    assert_eq!(commit_message("msg", &[]), "msg\n");
}

#[test]
fn splits_feed_lines() {
    assert_eq!(
        split_release_line("2019.1.2f1 (abc123def)"),
        Some(("2019.1.2f1".to_string(), "abc123def".to_string()))
    );
    assert_eq!(split_release_line("2019.1.2f1"), None);
    assert_eq!(split_release_line("2019.1.2f1 ()"), None);
    assert_eq!(split_release_line(" (abc)"), None);
    assert_eq!(split_release_line("2019.1.2f1 abc"), None);
    assert_eq!(split_release_line("2019.1.2f1 (abc"), None);
}

#[test]
fn table_does_not_depend_on_catalog_order() {
    let forward = entries(&[("2019.1.2f1", "a"), ("2019.01.2f1", "b"), ("2019.1.3b1", "c")]);
    let mut backward = forward.clone();
    backward.reverse();
    let t1 = LookupTable::build(&Catalog::load(&forward).unwrap());
    let t2 = LookupTable::build(&Catalog::load(&backward).unwrap());
    for p in [PrefixSpec::Major(2019), PrefixSpec::MajorMinor(2019, 1), PrefixSpec::Full(2019, 1, 2)] {
        for ch in [None, Some(Channel::Final), Some(Channel::Beta)] {
            assert_eq!(hash(&t1, p, ch), hash(&t2, p, ch));
        }
    }
    assert_eq!(hash(&t1, PrefixSpec::Full(2019, 1, 2), None), Some("a".to_string()));
    assert_eq!(t1.exact("2019.01.2f1"), Some("b".to_string()));
    assert_eq!(t2.exact("2019.01.2f1"), Some("b".to_string()));
}

#[test]
fn compatibility_keys_are_distinct() {
    let t = sample_table();
    let keys: Vec<CompatKey> = t.compatible_entries().iter().map(|e| e.0).collect();
    for (i, a) in keys.iter().enumerate() {
        for b in &keys[i + 1..] {
            assert_ne!(a, b);
        }
    }
}
