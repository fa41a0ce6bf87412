use semver_rs::{
    gt, gte, lt, lte, max_satisfying, min_satisfying, neq, rcompare, satisfies, valid, valid_range,
};

#[test]
fn valid_returns_canonical_form() {
    assert_eq!(valid("1.2.3", false), Some("1.2.3".to_string()));
    assert_eq!(valid("not-a-version", false), None);
}

#[test]
fn rcompare_reverses_compare() {
    assert_eq!(rcompare("1.2.3", "1.2.4", false), Ok(1));
    assert_eq!(rcompare("1.2.4", "1.2.3", false), Ok(-1));
}

#[test]
fn gt_lt_eq_neq_gte_lte_all_agree_with_compare() {
    assert_eq!(gt("2.0.0", "1.0.0", false), Ok(true));
    assert_eq!(gt("1.0.0", "2.0.0", false), Ok(false));
    assert_eq!(lt("1.0.0", "2.0.0", false), Ok(true));
    assert_eq!(lt("2.0.0", "1.0.0", false), Ok(false));
    assert_eq!(semver_rs::eq("1.0.0", "1.0.0", false), Ok(true));
    assert_eq!(semver_rs::eq("1.0.0", "2.0.0", false), Ok(false));
    assert_eq!(neq("1.0.0", "2.0.0", false), Ok(true));
    assert_eq!(neq("1.0.0", "1.0.0", false), Ok(false));
    assert_eq!(gte("1.0.0", "1.0.0", false), Ok(true));
    assert_eq!(gte("0.9.0", "1.0.0", false), Ok(false));
    assert_eq!(lte("1.0.0", "1.0.0", false), Ok(true));
    assert_eq!(lte("2.0.0", "1.0.0", false), Ok(false));
}

#[test]
fn comparisons_error_on_invalid_input() {
    assert!(gt("garbage", "1.0.0", false).is_err());
    assert!(lt("1.0.0", "garbage", false).is_err());
}

#[test]
fn valid_range_returns_canonical_form_or_none() {
    assert!(valid_range("^1.2.3", false).is_some());
    assert_eq!(valid_range("not a range !!", false), None);
}

#[test]
fn max_satisfying_picks_the_highest_match() {
    let versions = ["1.0.0", "1.5.0", "2.0.0", "1.9.9"];
    assert_eq!(max_satisfying(&versions, "^1.0.0", false), Some("1.9.9"));
    assert_eq!(max_satisfying(&versions, ">=3.0.0", false), None);
}

#[test]
fn min_satisfying_picks_the_lowest_match() {
    let versions = ["1.5.0", "1.0.0", "2.0.0", "1.9.9"];
    assert_eq!(min_satisfying(&versions, "^1.0.0", false), Some("1.0.0"));
    assert_eq!(min_satisfying(&versions, ">=3.0.0", false), None);
}

#[test]
fn satisfies_matches_readme_examples() {
    assert!(satisfies("1.2.5", "^1.2.3", false));
    assert!(!satisfies("2.0.0", "^1.2.3", false));
    assert!(!satisfies("1.2.5", "not a range", false));
}
