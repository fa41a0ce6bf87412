use semver_rs::{gtr, intersects, ltr, min_version, outside, subset, to_comparators, Options};

#[test]
fn min_version_of_a_caret_range() {
    let o = Options::new();
    assert_eq!(min_version("^1.2.3", o).map(|v| v.version()), Some("1.2.3".to_string()));
    assert_eq!(min_version(">1.2.3", o).map(|v| v.version()), Some("1.2.4".to_string()));
    assert_eq!(min_version("*", o).map(|v| v.version()), Some("0.0.0".to_string()));
}

#[test]
fn intersecting_ranges() {
    let o = Options::new();
    assert_eq!(intersects("^1.2.3", ">=1.0.0", o), Ok(true));
    assert_eq!(intersects("^1.2.3", "^2.0.0", o), Ok(false));
    assert_eq!(intersects(">=1.0.0", "<1.0.0", o), Ok(false));
    assert_eq!(intersects(">=1.0.0", "<=1.0.0", o), Ok(true));
}

#[test]
fn subset_relations() {
    let o = Options::new();
    assert_eq!(subset("^1.2.3", ">=1.0.0", o), Ok(true));
    assert_eq!(subset(">=1.0.0", "^1.2.3", o), Ok(false));
    assert_eq!(subset("1.2.3", "^1.2.0", o), Ok(true));
}

#[test]
fn gtr_and_ltr_are_mutually_exclusive() {
    let o = Options::new();
    for (v, r) in [
        ("1.1.2-b", "^1.1.0"),
        ("4.5.4-rc.1", "4.x"),
        ("2.2.2-0", "^2.1.1"),
        ("3.2.4-b", ">=0.1.0 <4.0.0"),
    ] {
        let above = gtr(v, r, o).unwrap();
        let below = ltr(v, r, o).unwrap();
        assert!(!(above && below), "{v} reported both above and below {r}");
    }
}

#[test]
fn outside_on_both_sides() {
    let o = Options::new();
    assert_eq!(gtr("2.0.0", "^1.2.3", o), Ok(true));
    assert_eq!(ltr("1.0.0", "^1.2.3", o), Ok(true));
    assert_eq!(gtr("1.2.5", "^1.2.3", o), Ok(false));
}

#[test]
fn outside_reports_the_correct_side() {
    let o = Options::new();
    assert_eq!(outside("2.0.0", "^1.2.3", ">", o), Ok(true));
    assert_eq!(outside("1.0.0", "^1.2.3", "<", o), Ok(true));
    assert_eq!(outside("1.2.5", "^1.2.3", ">", o), Ok(false));
    assert_eq!(outside("1.2.5", "^1.2.3", "<", o), Ok(false));
}

#[test]
fn to_comparators_splits_or_and_and_groups() {
    let o = Options::new();
    let result = to_comparators("1.2.3 - 2.3.4 || >=5.0.0", o).unwrap();
    assert_eq!(result.len(), 2);
    assert_eq!(result[0].len(), 2);
    assert_eq!(result[1].len(), 1);
    assert_eq!(result[1][0], ">=5.0.0");
}

#[test]
fn to_comparators_errors_on_invalid_range() {
    let o = Options::new();
    assert!(to_comparators("not a valid range !!", o).is_err());
}
