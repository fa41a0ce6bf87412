use semver_rs::{satisfies, valid_range, Comparator, Error, Op, Options, Range};

fn incl() -> Options {
    Options::new().with_include_prerelease(true)
}

#[test]
fn caret_keeps_the_left_most_non_zero_component() {
    assert_eq!(valid_range("^1.2.3", false).as_deref(), Some(">=1.2.3 <2.0.0-0"));
    assert_eq!(valid_range("^0.2.3", false).as_deref(), Some(">=0.2.3 <0.3.0-0"));
    assert_eq!(valid_range("^0.0.3", false).as_deref(), Some(">=0.0.3 <0.0.4-0"));
    assert_eq!(valid_range("^1.2", false).as_deref(), Some(">=1.2.0 <2.0.0-0"));
    assert_eq!(valid_range("^1.2.3-beta.2", false).as_deref(), Some(">=1.2.3-beta.2 <2.0.0-0"));
}

#[test]
fn caret_with_a_zero_major_drops_the_absorbed_lower_bound() {
    // `>=0.0.0` alone admits everything, so only the upper bound stays.
    assert_eq!(valid_range("^0", false).as_deref(), Some("<1.0.0-0"));
    assert_eq!(valid_range("^0.0", false).as_deref(), Some("<0.1.0-0"));
}

#[test]
fn leading_zero_major_keeps_its_lower_bound_in_loose_mode() {
    assert_eq!(valid_range("^00", true).as_deref(), Some(">=0.0.0 <1.0.0-0"));
    assert_eq!(valid_range("^0", true).as_deref(), Some("<1.0.0-0"));
}

#[test]
fn caret_with_prereleases_admitted_gets_a_zero_lower_tag() {
    assert_eq!(valid_range("^1.2", incl()).as_deref(), Some(">=1.2.0-0 <2.0.0-0"));
}

#[test]
fn tilde_allows_patch_changes() {
    assert_eq!(valid_range("~1.2.3", false).as_deref(), Some(">=1.2.3 <1.3.0-0"));
    assert_eq!(valid_range("~1.2", false).as_deref(), Some(">=1.2.0 <1.3.0-0"));
    assert_eq!(valid_range("~1", false).as_deref(), Some(">=1.0.0 <2.0.0-0"));
    assert_eq!(valid_range("~>1.2.3", false).as_deref(), Some(">=1.2.3 <1.3.0-0"));
}

#[test]
fn x_ranges_become_bounds() {
    assert_eq!(valid_range("1.2.x", false).as_deref(), Some(">=1.2.0 <1.3.0-0"));
    assert_eq!(valid_range("1.x", false).as_deref(), Some(">=1.0.0 <2.0.0-0"));
    assert_eq!(valid_range("*", false).as_deref(), Some("*"));
    assert_eq!(valid_range("", false).as_deref(), Some("*"));
    assert_eq!(valid_range(">1", false).as_deref(), Some(">=2.0.0"));
    assert_eq!(valid_range(">1.2", false).as_deref(), Some(">=1.3.0"));
    assert_eq!(valid_range("<=1.2", false).as_deref(), Some("<1.3.0-0"));
    assert_eq!(valid_range(">=1.2", false).as_deref(), Some(">=1.2.0"));
    assert_eq!(valid_range("<1.2", false).as_deref(), Some("<1.2.0-0"));
    assert_eq!(valid_range(">x", false).as_deref(), Some("<0.0.0-0"));
}

#[test]
fn hyphen_ranges_round_each_end() {
    assert_eq!(valid_range("1.2.3 - 2.3.4", false).as_deref(), Some(">=1.2.3 <=2.3.4"));
    assert_eq!(valid_range("1.2 - 2.3", false).as_deref(), Some(">=1.2.0 <2.4.0-0"));
    assert_eq!(valid_range("1.2.3 - 2", false).as_deref(), Some(">=1.2.3 <3.0.0-0"));
}

#[test]
fn operators_are_glued_to_their_versions() {
    assert_eq!(valid_range("> 1.2.3", false).as_deref(), Some(">1.2.3"));
    assert_eq!(valid_range(">= 1.2.3 < 2.0.0", false).as_deref(), Some(">=1.2.3 <2.0.0"));
}

#[test]
fn an_unsatisfiable_comparator_collapses_its_set() {
    assert_eq!(valid_range(">1.0.0 <0.0.0-0", false).as_deref(), Some("<0.0.0-0"));
}

#[test]
fn repeated_comparators_are_dropped_but_repeated_alternatives_are_not() {
    assert_eq!(valid_range(">=1.0.0 >=1.0.0", false).as_deref(), Some(">=1.0.0"));
    assert_eq!(
        valid_range("1 || 1", false).as_deref(),
        Some(">=1.0.0 <2.0.0-0||>=1.0.0 <2.0.0-0")
    );
    assert_eq!(valid_range("1.2.3 || 2.x", false).as_deref(), Some("1.2.3||>=2.0.0 <3.0.0-0"));
}

#[test]
fn loose_mode_drops_unreadable_alternatives() {
    assert_eq!(valid_range("foo || 1.2.3", true).as_deref(), Some("1.2.3"));
    assert_eq!(valid_range("foo || 1.2.3", false), None);
    assert_eq!(valid_range(">foo >=1.0.0", true).as_deref(), Some(">=1.0.0"));
}

#[test]
fn an_oversized_component_invalidates_the_whole_range() {
    assert_eq!(valid_range(">=1.0.0 9007199254740992.x", true), None);
    assert_eq!(
        Range::parse(">=9007199254740992.0.0", false).map(|r| r.to_string()),
        Err(Error::InvalidRange {
            input: ">=9007199254740992.0.0".to_string(),
            reason: "component exceeds the maximum safe integer",
        })
    );
}

#[test]
fn range_errors_name_their_input() {
    assert_eq!(
        Range::parse("foo", true).map(|r| r.to_string()),
        Err(Error::InvalidRange { input: "foo".to_string(), reason: "no usable alternative" })
    );
    assert!(matches!(
        Range::parse("foo", false),
        Err(Error::InvalidComparator { ref input, .. }) if input == "foo"
    ));
}

#[test]
fn prereleases_need_a_matching_comparator() {
    assert!(!satisfies("1.2.4-alpha", "^1.2.3", false));
    assert!(satisfies("1.2.3-beta.2", "^1.2.3-beta.1", false));
    assert!(!satisfies("1.2.4-beta.2", "^1.2.3-beta.1", false));
    assert!(satisfies("1.2.4-alpha", "^1.2.3", incl()));
}

#[test]
fn build_metadata_in_a_range_is_ignored() {
    assert_eq!(valid_range(">=1.2.3+build.5", false).as_deref(), Some(">=1.2.3"));
    assert!(satisfies("1.2.3+other", "1.2.3", false));
}

#[test]
fn range_text_and_raw_text() {
    let r = Range::parse("  ^1.2.3  ", false).unwrap();
    assert_eq!(r.to_string(), ">=1.2.3 <2.0.0-0");
    assert_eq!(r.raw(), "^1.2.3");
    assert_eq!(r.set.len(), 1);
    assert_eq!(r.set[0].to_string(), ">=1.2.3 <2.0.0-0");
    assert!(r.test_str("1.9.0"));
    assert!(!r.test_str("2.0.0"));
    assert!(!r.test_str("not a version"));
}

#[test]
fn comparators_parse_and_print() {
    let c = Comparator::parse(">=1.2.3", false).unwrap();
    assert_eq!(c.op, Op::Gte);
    assert_eq!(c.to_string(), ">=1.2.3");
    assert!(!c.is_any());
    let any = Comparator::parse(" * ", false).unwrap();
    assert!(any.is_any());
    assert_eq!(any.to_string(), "*");
    let null = Comparator::parse("<0.0.0-0", false).unwrap();
    assert!(null.is_null_set());
    assert!(!c.is_null_set());
    assert!(matches!(
        Comparator::parse(">=foo", false),
        Err(Error::InvalidComparator { ref input, .. }) if input == ">=foo"
    ));
    // `==` is a spelling of `=` only in loose mode.
    assert_eq!(Comparator::parse("==1.2.3", true).map(|c| c.to_string()), Ok("1.2.3".to_string()));
    assert!(Comparator::parse("==1.2.3", false).is_err());
    assert_eq!(Op::Lte.as_str(), "<=");
    assert_eq!(Op::Eq.as_str(), "");
}
