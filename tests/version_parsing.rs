use unity_versions_service::channel::Channel;
use unity_versions_service::version::Version;

#[test]
fn parses_final_release() {
    let v = Version::parse("2019.1.2f1").unwrap();
    assert_eq!(v.major(), 2019);
    assert_eq!(v.minor(), 1);
    assert_eq!(v.patch(), 2);
    assert_eq!(v.channel(), Channel::Final);
    assert_eq!(v.sequence(), 1);
    assert_eq!(v.raw().as_str(), "2019.1.2f1");
}

#[test]
fn parses_every_channel_letter() {
    assert_eq!(Version::parse("2018.4.10p3").unwrap().channel(), Channel::Patch);
    assert_eq!(Version::parse("2019.1.0b5").unwrap().channel(), Channel::Beta);
    assert_eq!(Version::parse("2020.1.0a12").unwrap().channel(), Channel::Alpha);
    assert_eq!(Version::parse("2020.1.0a12").unwrap().sequence(), 12);
}

#[test]
fn keeps_raw_text_with_leading_zeros() {
    let v = Version::parse("2019.01.2f1").unwrap();
    assert_eq!(v.minor(), 1);
    assert_eq!(v.raw().as_str(), "2019.01.2f1");
    assert_eq!(v.format(), "2019.1.2f1");
}

#[test]
fn rejects_missing_parts() {
    for s in ["", "2019", "2019.1", "2019.1.2", "2019.1.2f", "2019..2f1", ".1.2f1", "2019.1.f1"] {
        let e = Version::parse(s).unwrap_err();
        assert_eq!(e.input, s);
    }
}

#[test]
fn rejects_unknown_channel_letter() {
    assert!(Version::parse("2019.1.2x1").is_err());
    assert!(Version::parse("2019.1.2F1").is_err());
}

#[test]
fn rejects_non_numeric_parts() {
    assert!(Version::parse("20a9.1.2f1").is_err());
    assert!(Version::parse("2019.1.2f1x").is_err());
    assert!(Version::parse("2019.1.2f1 ").is_err());
    assert!(Version::parse("+2019.1.2f1").is_err());
    assert!(Version::parse("2019.1.-2f1").is_err());
}

#[test]
fn rejects_numbers_beyond_u64() {
    assert!(Version::parse("18446744073709551616.1.1f1").is_err());
    let v = Version::parse("18446744073709551615.1.1f1").unwrap();
    assert_eq!(v.major(), u64::MAX);
}

#[test]
fn formats_canonical_text() {
    let v = Version::new(2019, 1, 2, Channel::Beta, 10);
    assert_eq!(v.format(), "2019.1.2b10");
    assert_eq!(v.raw().as_str(), "2019.1.2b10");
    let z = Version::new(0, 0, 0, Channel::Alpha, 0);
    assert_eq!(z.format(), "0.0.0a0");
}

#[test]
fn parse_inverts_format() {
    for ch in [Channel::Final, Channel::Patch, Channel::Beta, Channel::Alpha] {
        let v = Version::new(2018, 4, 11, ch, 7);
        let w = Version::parse(&v.format()).unwrap();
        assert_eq!(w.major(), v.major());
        assert_eq!(w.minor(), v.minor());
        assert_eq!(w.patch(), v.patch());
        assert_eq!(w.channel(), v.channel());
        assert_eq!(w.sequence(), v.sequence());
        assert_eq!(w.raw(), v.raw());
    }
    let big = Version::new(u64::MAX, 0, 10, Channel::Final, u64::MAX);
    let back = Version::parse(&big.format()).unwrap();
    assert_eq!(back.major(), u64::MAX);
    assert_eq!(back.sequence(), u64::MAX);
}

#[test]
fn release_order() {
    let a = Version::parse("2019.1.2f1").unwrap();
    let b = Version::parse("2019.1.1f1").unwrap();
    let c = Version::parse("2019.1.2f2").unwrap();
    let d = Version::parse("2019.1.2b9").unwrap();
    assert!(a.is_newer_than(&b));
    assert!(!b.is_newer_than(&a));
    assert!(c.is_newer_than(&a));
    assert!(a.is_newer_than(&d));
    assert!(!a.is_newer_than(&a));
}

#[test]
fn channel_letters_and_names() {
    assert_eq!(Channel::from_letter('f'), Some(Channel::Final));
    assert_eq!(Channel::from_letter('x'), None);
    assert_eq!(Channel::Patch.letter(), 'p');
    assert_eq!(Channel::Beta.name(), "beta");
    assert_eq!(Channel::from_name("alpha"), Some(Channel::Alpha));
    assert_eq!(Channel::from_name("final"), Some(Channel::Final));
    assert_eq!(Channel::from_name("Final"), None);
    assert!(Channel::Final.rank() > Channel::Patch.rank());
    assert!(Channel::Patch.rank() > Channel::Beta.rank());
    assert!(Channel::Beta.rank() > Channel::Alpha.rank());
}
