use semver_rs::{compare_identifier_lists, compare_identifiers, Identifier};
use std::cmp::Ordering;

fn id(s: &str) -> Identifier {
    Identifier::parse(s)
}

#[test]
fn numeric_compares_numerically() {
    assert_eq!(compare_identifiers(&id("2"), &id("10")), Ordering::Less);
    assert_eq!(compare_identifiers(&id("10"), &id("2")), Ordering::Greater);
    assert_eq!(compare_identifiers(&id("5"), &id("5")), Ordering::Equal);
}

#[test]
fn numeric_sorts_before_alphanumeric() {
    assert_eq!(compare_identifiers(&id("1"), &id("alpha")), Ordering::Less);
    assert_eq!(compare_identifiers(&id("alpha"), &id("1")), Ordering::Greater);
}

#[test]
fn alphanumeric_compares_as_ascii() {
    assert_eq!(compare_identifiers(&id("alpha"), &id("beta")), Ordering::Less);
    assert_eq!(compare_identifiers(&id("rc"), &id("beta")), Ordering::Greater);
}

#[test]
fn leading_zero_becomes_numeric() {
    assert!(matches!(id("01"), Identifier::Numeric(1)));
    assert!(matches!(id("00"), Identifier::Numeric(0)));
    assert!(matches!(id("0"), Identifier::Numeric(0)));
    assert!(matches!(id("10"), Identifier::Numeric(10)));
    assert!(matches!(id("0a"), Identifier::Alphanumeric(_)));
}

#[test]
fn oversized_numeric_stays_a_string() {
    let big = "9007199254740992";
    assert!(matches!(id(big), Identifier::Alphanumeric(_)));
}

#[test]
fn shorter_prefix_has_lower_precedence() {
    let a = vec![id("alpha")];
    let b = vec![id("alpha"), id("1")];
    assert_eq!(compare_identifier_lists(&a, &b), Ordering::Less);
    assert_eq!(compare_identifier_lists(&b, &a), Ordering::Greater);
}
