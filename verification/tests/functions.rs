use semver_rs::{
    clean, cmp, coerce, compare_build, compare_loose, diff, major, minor, patch, prerelease, rsort,
    satisfies, simplify_range, sort, truncate, Options,
};

#[test]
fn coerce_pulls_a_version_out_of_text() {
    let o = Options::new();
    assert_eq!(coerce("v1.2.3", o).map(|v| v.version()), Some("1.2.3".into()));
    assert_eq!(coerce("42", o).map(|v| v.version()), Some("42.0.0".into()));
    assert_eq!(coerce("1.2", o).map(|v| v.version()), Some("1.2.0".into()));
    assert_eq!(coerce("not a version", o), None);
}

#[test]
fn diff_reports_the_release_kind() {
    assert_eq!(diff("1.2.3", "1.2.4").as_deref(), Some("patch"));
    assert_eq!(diff("1.2.3", "1.3.0").as_deref(), Some("minor"));
    assert_eq!(diff("1.2.3", "2.0.0").as_deref(), Some("major"));
    assert_eq!(diff("1.2.3", "1.2.3"), None);
}

#[test]
fn diff_treats_a_prerelease_of_a_major_as_major() {
    assert_eq!(diff("1.0.0-1", "1.0.0").as_deref(), Some("major"));
}

#[test]
fn cmp_accepts_operators_as_strings() {
    let o = Options::new();
    assert_eq!(cmp("1.2.3", ">", "1.2.2", o), Ok(true));
    assert_eq!(cmp("1.2.3", "=", "1.2.3", o), Ok(true));
    assert_eq!(cmp("1.2.3", "!=", "1.2.3", o), Ok(false));
}

#[test]
fn simplify_range_of_nothing_is_not_everything() {
    let o = Options::new();
    let versions = ["1.0.0", "2.0.0"];

    let simplified = simplify_range(&versions, "^5.0.0", o).unwrap();

    for v in versions {
        assert!(
            !satisfies(v, &simplified, o),
            "{v} matches the simplified form of a range it did not match"
        );
    }
    assert_eq!(simplified, "<0.0.0-0");
}

#[test]
fn sort_orders_by_precedence() {
    let mut v: Vec<String> = ["1.2.3", "1.0.0", "2.0.0", "1.2.3-alpha"]
        .iter()
        .map(|s| s.to_string())
        .collect();
    sort(&mut v, Options::new());
    assert_eq!(v, vec!["1.0.0", "1.2.3-alpha", "1.2.3", "2.0.0"]);
}

#[test]
fn rsort_orders_by_reverse_precedence() {
    let mut v: Vec<String> = ["1.2.3", "1.0.0", "2.0.0", "1.2.3-alpha"]
        .iter()
        .map(|s| s.to_string())
        .collect();
    rsort(&mut v, Options::new());
    assert_eq!(v, vec!["2.0.0", "1.2.3", "1.2.3-alpha", "1.0.0"]);
}

#[test]
fn major_minor_patch_extract_components() {
    let o = Options::new();
    assert_eq!(major("1.2.3", o), Some(1));
    assert_eq!(minor("1.2.3", o), Some(2));
    assert_eq!(patch("1.2.3", o), Some(3));
    assert_eq!(major("not-a-version", o), None);
}

#[test]
fn prerelease_extracts_identifiers_or_empty_vec_or_none() {
    let o = Options::new();
    assert_eq!(
        prerelease("1.2.3-alpha.1", o),
        Some(vec!["alpha".to_string(), "1".to_string()])
    );
    assert_eq!(prerelease("1.2.3", o), Some(vec![]));
    assert_eq!(prerelease("not-a-version", o), None);
}

#[test]
fn clean_strips_prefix_and_whitespace() {
    let o = Options::new();
    assert_eq!(clean("  =v1.2.3 ", o).as_deref(), Some("1.2.3"));
    assert_eq!(clean("v1.2.3", o).as_deref(), Some("1.2.3"));
    assert_eq!(clean("not a version", o), None);
}

#[test]
fn truncate_zeroes_lower_precision_components() {
    let o = Options::new();
    assert_eq!(truncate("1.2.3-beta.1", "major", o).as_deref(), Some("1.0.0"));
    assert_eq!(truncate("1.2.3-beta.1", "minor", o).as_deref(), Some("1.2.0"));
    assert_eq!(truncate("1.2.3-beta.1", "patch", o).as_deref(), Some("1.2.3"));
    assert_eq!(
        truncate("1.2.3-beta.1", "prerelease", o).as_deref(),
        Some("1.2.3-beta.1")
    );
    assert_eq!(truncate("1.2.3", "not-a-release-type", o), None);
}

#[test]
fn compare_loose_is_lenient_about_input() {
    assert_eq!(compare_loose("1.2.3", "1.2.4"), Ok(-1));
    assert_eq!(compare_loose("1.2.3", "1.2.3"), Ok(0));
}

#[test]
fn compare_build_breaks_ties_on_build_metadata() {
    let o = Options::new();
    assert_eq!(compare_build("1.2.3+build.1", "1.2.3+build.2", o), Ok(-1));
    assert_eq!(compare_build("1.2.3", "1.2.3", o), Ok(0));
}
