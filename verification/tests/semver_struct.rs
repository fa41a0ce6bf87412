use semver_rs::{Options, SemVer};
use std::cmp::Ordering;

#[test]
fn parse_extracts_all_components() {
    let v = SemVer::parse("1.2.3-alpha.1+build.5", Options::new()).unwrap();
    assert_eq!(v.major, 1);
    assert_eq!(v.minor, 2);
    assert_eq!(v.patch, 3);
    assert!(v.is_prerelease());
    assert!(SemVer::parse("not-a-version", Options::new()).is_err());
}

#[test]
fn version_and_to_string_with_build_differ_by_build_metadata() {
    let v = SemVer::parse("1.2.3+build.5", Options::new()).unwrap();
    assert_eq!(v.version(), "1.2.3");
    assert_eq!(v.to_string_with_build(), "1.2.3+build.5");
}

#[test]
fn options_returns_the_options_used_to_parse() {
    let v = SemVer::parse("1.2.3", Options::new()).unwrap();
    let _ = v.options();
}

#[test]
fn is_prerelease_is_false_for_release_versions() {
    let v = SemVer::parse("1.2.3", Options::new()).unwrap();
    assert!(!v.is_prerelease());
}

#[test]
fn compare_main_ignores_prerelease_and_build() {
    let a = SemVer::parse("1.2.3-alpha", Options::new()).unwrap();
    let b = SemVer::parse("1.2.3+build.9", Options::new()).unwrap();
    assert_eq!(a.compare_main(&b), Ordering::Equal);
}

#[test]
fn compare_pre_orders_prerelease_before_release() {
    let a = SemVer::parse("1.2.3-alpha", Options::new()).unwrap();
    let b = SemVer::parse("1.2.3", Options::new()).unwrap();
    assert_eq!(a.compare_pre(&b), Ordering::Less);
}

#[test]
fn compare_ignores_build_metadata() {
    let a = SemVer::parse("1.2.3+build.1", Options::new()).unwrap();
    let b = SemVer::parse("1.2.3+build.2", Options::new()).unwrap();
    assert_eq!(a.compare(&b), Ordering::Equal);
}

#[test]
fn compare_build_breaks_ties_using_build_metadata() {
    let a = SemVer::parse("1.2.3+build.1", Options::new()).unwrap();
    let b = SemVer::parse("1.2.3+build.2", Options::new()).unwrap();
    assert_eq!(a.compare_build(&b), Ordering::Less);
}
