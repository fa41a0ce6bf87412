use semver_rs::{
    coerce, compare, diff, inc, parse, valid, Error, IdentifierBase, Options, Release, SemVer,
};

#[test]
fn loose_mode_coerces_leading_zeros_in_prereleases() {
    assert_eq!(valid("0.7.0-beta.01", true).as_deref(), Some("0.7.0-beta.1"));
    assert_eq!(valid("0.7.0-beta.01", false), None);
}

#[test]
fn a_trailing_hyphen_is_an_identifier_in_loose_mode() {
    assert_eq!(valid("1.2.3-", true).as_deref(), Some("1.2.3--"));
    assert_eq!(valid("1.2.3-.x", true).as_deref(), Some("1.2.3--.x"));
    assert_eq!(valid("1.2.3-.", true), None);
}

#[test]
fn the_loose_grammar_backtracks_across_the_patch() {
    let v = parse("90071992547.0991.59.145515", true).unwrap();
    assert_eq!(v.major, 90071992547);
    assert_eq!(v.minor, 991);
    assert_eq!(v.patch, 5);
    assert_eq!(v.version(), "90071992547.991.5-9.145515");
}

#[test]
fn too_long_input_is_rejected_before_parsing() {
    let long = format!("1.2.3-{}", "a".repeat(300));
    assert_eq!(
        SemVer::parse(&long, false),
        Err(Error::TooLong { len: long.len(), max: 256 })
    );
}

#[test]
fn the_length_limit_and_the_safe_integer_bound_are_exact() {
    // 256 bytes are accepted, 257 are not; the limit counts bytes of the
    // untrimmed text.
    let at = format!("1.2.3-{}", "a".repeat(250));
    assert_eq!(at.len(), 256);
    assert!(SemVer::parse(&at, false).is_ok());
    let over = format!("{at}a");
    assert_eq!(SemVer::parse(&over, false), Err(Error::TooLong { len: 257, max: 256 }));
    let padded = format!(" {at}");
    assert_eq!(SemVer::parse(&padded, true), Err(Error::TooLong { len: 257, max: 256 }));
    assert!(SemVer::parse("9007199254740991.0.0", false).is_ok());
    assert!(SemVer::parse("9007199254740992.0.0", false).is_err());
    assert!(SemVer::parse("0.0.9007199254740991", false).is_ok());
    assert!(SemVer::parse("0.0.9007199254740992", false).is_err());
}

#[test]
fn invalid_version_errors_carry_the_text() {
    assert!(matches!(
        SemVer::parse("  1.2  ", false),
        Err(Error::InvalidVersion { ref input, .. }) if input == "1.2"
    ));
}

#[test]
fn precedence_ignores_build_metadata_and_is_antisymmetric() {
    assert_eq!(compare("1.2.3+a", "1.2.3+b", false), Ok(0));
    for (a, b) in [("1.0.0-alpha", "1.0.0"), ("1.0.0-alpha.1", "1.0.0-alpha.beta"), ("2.0.0", "10.0.0")] {
        assert_eq!(compare(a, b, false), Ok(-1));
        assert_eq!(compare(b, a, false), Ok(1));
        assert_eq!(compare(a, a, false), Ok(0));
    }
}

#[test]
fn canonical_forms_re_parse_to_the_same_version() {
    for input in ["v1.2.3", "=1.2.3-beta.01", " 1.2.3+build ", "1.2.3-", "01.02.03"] {
        let text = valid(input, true).unwrap();
        let again = parse(&text, false).unwrap();
        assert_eq!(again.version(), text);
        assert_eq!(compare(&text, input, true), Ok(0));
    }
}

#[test]
fn coerce_finds_versions_in_text() {
    let o = Options::new();
    assert_eq!(coerce("1.2.3.4", o).map(|v| v.version()), Some("1.2.3".into()));
    assert_eq!(coerce("a1.2.3b", o).map(|v| v.version()), Some("1.2.3".into()));
    assert_eq!(coerce("v2", o).map(|v| v.version()), Some("2.0.0".into()));
    let incl = Options::new().with_include_prerelease(true);
    assert_eq!(coerce("1.2.3-rc.1+b", incl).map(|v| v.version()), Some("1.2.3-rc.1".into()));
    assert_eq!(coerce("1.2.3-rc.1+b", o).map(|v| v.version()), Some("1.2.3".into()));
}

#[test]
fn diff_names_prerelease_steps() {
    assert_eq!(diff("1.2.3", "1.2.3-rc").as_deref(), Some("patch"));
    assert_eq!(diff("1.2.0-rc", "1.2.0").as_deref(), Some("minor"));
    assert_eq!(diff("1.2.3-a", "1.2.3-b").as_deref(), Some("prerelease"));
    assert_eq!(diff("1.2.3", "2.0.0-rc").as_deref(), Some("premajor"));
    assert_eq!(diff("not", "1.0.0"), None);
}

#[test]
fn increments_follow_the_release_kind() {
    let z = IdentifierBase::Zero;
    assert_eq!(inc("1.2.3", "major", None, z, false).as_deref(), Some("2.0.0"));
    assert_eq!(inc("1.2.3", "minor", None, z, false).as_deref(), Some("1.3.0"));
    assert_eq!(inc("1.2.3", "patch", None, z, false).as_deref(), Some("1.2.4"));
    assert_eq!(inc("1.2.3-beta", "patch", None, z, false).as_deref(), Some("1.2.3"));
    assert_eq!(inc("1.0.0-alpha", "major", None, z, false).as_deref(), Some("1.0.0"));
    assert_eq!(inc("1.2.3", "premajor", Some("beta"), z, false).as_deref(), Some("2.0.0-beta.0"));
    assert_eq!(inc("1.2.3", "prerelease", Some("beta"), z, false).as_deref(), Some("1.2.4-beta.0"));
    assert_eq!(
        inc("1.2.4-beta.0", "prerelease", Some("beta"), z, false).as_deref(),
        Some("1.2.4-beta.1")
    );
    assert_eq!(inc("1.2.3", "prepatch", None, z, false).as_deref(), Some("1.2.4-0"));
    assert_eq!(inc("1.2.3", "bogus", None, z, false), None);
    assert_eq!(inc("bogus", "major", None, z, false), None);
}

#[test]
fn an_unknown_release_kind_is_an_increment_error() {
    assert!(matches!(Release::parse("bogus"), Err(Error::InvalidIncrement { .. })));
    assert_eq!(Release::parse("major"), Ok(Release::Major));
}

#[test]
fn rejected_versions_say_why() {
    let cases = [
        ("", "expected a number"),
        ("01.2.3", "leading zero in a version component"),
        ("99999999999999999999.0.0", "version component out of range"),
        ("9007199254740992.0.0", "version component exceeds the maximum safe integer"),
        ("1", "missing separator"),
        ("1.2", "missing separator"),
        ("1.2.", "expected a patch number"),
        ("1.2.03", "leading zero in a version component"),
        ("1.2.3-", "empty prerelease identifier"),
        ("1.2.3-a..b", "empty prerelease identifier"),
        ("1.2.3-01", "leading zero in a numeric prerelease identifier"),
        ("1.2.3+", "empty build identifier"),
        ("1.2.3x", "trailing characters"),
        ("1.2.9007199254740992", "version component exceeds the maximum safe integer"),
    ];
    for (text, why) in cases {
        match semver_rs::SemVer::parse(text, false) {
            Err(semver_rs::Error::InvalidVersion { reason, .. }) => assert_eq!(reason, why, "{text}"),
            other => panic!("{text}: {other:?}"),
        }
    }
    match semver_rs::Comparator::parse(">=1.x.y", false) {
        Err(semver_rs::Error::InvalidComparator { input, reason }) => {
            assert_eq!(input, ">=1.x.y");
            assert_eq!(reason, "the version part is not valid");
        }
        other => panic!("{other:?}"),
    }
}

#[test]
fn refused_increments_say_why() {
    let kind = |v: &str, r: Release, id: Option<&str>, base: IdentifierBase| -> String {
        match SemVer::parse(v, false).unwrap().inc(r, id, base) {
            Err(Error::InvalidIncrement { kind }) => kind,
            other => panic!("{other:?}"),
        }
    };
    assert_eq!(
        kind("1.2.3", Release::ReleaseOnly, None, IdentifierBase::Zero),
        "version 1.2.3 is not a prerelease"
    );
    assert_eq!(kind("1.2.3", Release::Pre, Some("01"), IdentifierBase::Zero), "invalid identifier: 01");
    assert_eq!(kind("1.2.3", Release::Pre, None, IdentifierBase::Unnumbered), "identifier is empty");
    assert_eq!(
        kind("1.2.3-beta", Release::Pre, Some("beta"), IdentifierBase::Unnumbered),
        "identifier already exists"
    );
}
