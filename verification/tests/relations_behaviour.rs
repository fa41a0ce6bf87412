use semver_rs::{
    gtr, intersects, ltr, max_satisfying, min_satisfying, min_version, simplify_range, sort,
    subset, Error, Options,
};

#[test]
fn min_version_edges() {
    let o = Options::new();
    assert_eq!(min_version("<0.0.0-0", o), None);
    assert_eq!(min_version(">=1.2.3 <1.0.0", o), None);
    assert_eq!(min_version(">1.2.3-alpha", o).map(|v| v.version()), Some("1.2.3-alpha.0".into()));
    // `0.0.0-0` is anchored by the comparator itself, and ranks lowest.
    assert_eq!(min_version(">=0.0.0-0", o).map(|v| v.version()), Some("0.0.0-0".into()));
    // An empty first set does not hide the second.
    assert_eq!(min_version(">=1.0.0 <1.0.0 || >=3.0.0", o).map(|v| v.version()), Some("3.0.0".into()));
    // With prereleases admitted, the lowest version there is.
    let ip = Options::new().with_include_prerelease(true);
    assert_eq!(min_version("<1.0.0", ip).map(|v| v.version()), Some("0.0.0-0".into()));
    assert_eq!(min_version(">1.2.3", ip).map(|v| v.version()), Some("1.2.4-0".into()));
    assert_eq!(min_version("not a range", o), None);
}

#[test]
fn relation_errors_come_from_the_first_bad_range() {
    let o = Options::new();
    assert!(matches!(intersects("foo", "1.0.0", o), Err(Error::InvalidComparator { .. })));
    assert!(matches!(subset("1.0.0", "foo", o), Err(Error::InvalidComparator { .. })));
    assert!(gtr("garbage", "^1.0.0", o).is_err());
}

#[test]
fn intersection_of_empty_and_unbounded_sets() {
    let o = Options::new();
    assert_eq!(intersects("<0.0.0-0", "*", o), Ok(false));
    assert_eq!(intersects("<1.2.0", "<1.3.0", o), Ok(true));
    assert_eq!(intersects("1.2.3", ">1.2.3", o), Ok(false));
    assert_eq!(intersects(">1.0.0 <2.0.0", ">=1.5.0 <3.0.0", o), Ok(true));
}

#[test]
fn subset_with_unrestricted_ranges() {
    let o = Options::new();
    assert_eq!(subset("^1.0.0", "*", o), Ok(true));
    assert_eq!(subset("*", "^1.0.0", o), Ok(false));
    assert_eq!(subset("^1.2.3 || ^2.0.0", ">=1.0.0", o), Ok(true));
}

#[test]
fn a_crossed_set_can_be_both_above_and_below() {
    // The one input where gtr and ltr agree: a set whose lower bound is
    // above its upper bound.
    let o = Options::new();
    assert_eq!(gtr("3.0.0", ">=5.0.0 <1.0.0", o), Ok(true));
    assert_eq!(ltr("3.0.0", ">=5.0.0 <1.0.0", o), Ok(true));
}

#[test]
fn best_satisfying_prefers_the_first_of_equals() {
    let versions = ["1.0.0+a", "1.0.0+b", "0.5.0"];
    assert_eq!(max_satisfying(&versions, "^1.0.0", false), Some("1.0.0+a"));
    assert_eq!(min_satisfying(&versions, "*", false), Some("0.5.0"));
    assert_eq!(max_satisfying(&versions, "not a range !!", false), None);
}

#[test]
fn simplify_range_writes_runs() {
    let o = Options::new();
    let versions = ["1.2.0", "1.0.0", "2.0.0", "1.1.0"];
    assert_eq!(
        simplify_range(&versions, ">=1.1.0 <2.0.0", o).as_deref(),
        Some("1.1.0 - 1.2.0")
    );
    assert_eq!(simplify_range(&versions, "*", o).as_deref(), Some("*"));
    assert_eq!(simplify_range(&versions, "^1.0.0", o).as_deref(), Some("^1.0.0"));
    assert_eq!(simplify_range(&versions, ">=1.0.0 <=1.1.0", o).as_deref(), Some("<=1.1.0"));
}

#[test]
fn sorting_puts_unparseable_texts_last_and_keeps_equal_ones_in_order() {
    let mut v: Vec<String> =
        ["b", "1.0.0+z", "a", "0.1.0", "1.0.0+a"].iter().map(|s| s.to_string()).collect();
    sort(&mut v, Options::new());
    assert_eq!(v, vec!["0.1.0", "1.0.0+a", "1.0.0+z", "a", "b"]);
}

#[test]
fn min_version_is_no_higher_than_any_satisfying_version() {
    let o = Options::new();
    let r = ">=1.2.7 <1.3.0 || >2.0.0";
    let m = min_version(r, o).unwrap();
    assert_eq!(m.version(), "1.2.7");
    for w in ["1.2.7", "1.2.9", "2.0.1", "3.0.0"] {
        assert!(semver_rs::satisfies(w, r, o));
        assert!(m.compare(&semver_rs::parse(w, o).unwrap()) != std::cmp::Ordering::Greater);
    }
    // The first set anchors prereleases of `1.2.4`, the lowest of which
    // is `1.2.4-0`.
    let r = ">1.2.3 <1.2.4-beta || >=1.2.4";
    let m = min_version(r, o).unwrap();
    assert_eq!(m.version(), "1.2.4-0");
    for w in ["1.2.4-0", "1.2.4-alpha", "1.2.4"] {
        assert!(semver_rs::satisfies(w, r, o));
        assert!(m.compare(&semver_rs::parse(w, o).unwrap()) != std::cmp::Ordering::Greater);
    }
}

#[test]
fn sorting_keeps_tied_texts_in_their_original_order() {
    let loose = Options::loose();
    let mut v: Vec<String> = ["v1.0.0", "0.9.0", "=1.0.0", "1.0.0"].iter().map(|s| s.to_string()).collect();
    sort(&mut v, loose);
    assert_eq!(v, vec!["0.9.0", "v1.0.0", "=1.0.0", "1.0.0"]);
    let mut v: Vec<String> = ["1.0.0", "0.9.0", "v1.0.0"].iter().map(|s| s.to_string()).collect();
    semver_rs::rsort(&mut v, loose);
    assert_eq!(v, vec!["1.0.0", "v1.0.0", "0.9.0"]);
}

#[test]
fn simplifying_keeps_the_range_where_runs_would_drop_a_prerelease() {
    let o = Options::new();
    // The runs would read `*`, which rejects `1.5.0-alpha`.
    let versions = ["1.0.0", "1.5.0-alpha", "2.0.0"];
    let r = "1.0.0 || 1.5.0-alpha || 2.0.0";
    assert!(semver_rs::satisfies("1.5.0-alpha", r, o));
    let s = simplify_range(&versions, r, o).unwrap();
    assert_eq!(s, r);
    assert!(semver_rs::satisfies("1.5.0-alpha", &s, o));
    let versions = ["1.0.0-beta.2", "1.0.0"];
    assert_eq!(simplify_range(&versions, ">=1.0.0-beta.1", o).as_deref(), Some(">=1.0.0-beta.1"));
}

#[test]
fn a_subset_answer_holds_for_the_versions_in_it() {
    let o = Options::new();
    assert_eq!(subset("^1.2.0", ">=1.0.0 <2.0.0", o), Ok(true));
    for v in ["1.2.0", "1.9.9", "1.2.7"] {
        assert!(semver_rs::satisfies(v, "^1.2.0", o));
        assert!(semver_rs::satisfies(v, ">=1.0.0 <2.0.0", o));
    }
    // `1.0.0` satisfies the first range and not the second.
    assert_eq!(subset("=1.0.0", "<0.5.0 =1.0.0", o), Ok(false));
    assert!(!semver_rs::satisfies("1.0.0", "<0.5.0 =1.0.0", o));
    // A prerelease falls to the prerelease rule in the second range.
    assert_eq!(subset(">=1.5.0-alpha <1.6.0", ">=1.0.0 <2.0.0", o), Ok(false));
    assert!(semver_rs::satisfies("1.5.0-alpha", ">=1.5.0-alpha <1.6.0", o));
    assert!(!semver_rs::satisfies("1.5.0-alpha", ">=1.0.0 <2.0.0", o));
    assert_eq!(subset("1.2.3-alpha", ">=1.0.0", o), Ok(false));
    // With prereleases admitted the rule is off, and containment holds.
    let ip = Options::new().with_include_prerelease(true);
    assert_eq!(subset(">=1.5.0-alpha <1.6.0", ">=1.0.0 <2.0.0", ip), Ok(true));
}

#[test]
fn intersecting_ranges_share_a_version() {
    let o = Options::new();
    let with_pre = Options::new().with_include_prerelease(true);
    assert_eq!(intersects(">=1.2.0 <1.4.0", "^1.3.5", o), Ok(true));
    assert!(semver_rs::satisfies("1.3.5", ">=1.2.0 <1.4.0", with_pre));
    assert!(semver_rs::satisfies("1.3.5", "^1.3.5", with_pre));
    // Only upper bounds: `0.0.0-0` lies under both.
    assert_eq!(intersects("<1.2.0", "<0.5.0", o), Ok(true));
    assert!(semver_rs::satisfies("0.0.0-0", "<1.2.0", with_pre));
    assert!(semver_rs::satisfies("0.0.0-0", "<0.5.0", with_pre));
    assert_eq!(intersects(">=2.0.0", "<1.0.0", o), Ok(false));
}

#[test]
fn a_simplified_range_admits_the_same_listed_versions() {
    let o = Options::new();
    let versions = ["1.0.0", "1.1.0", "1.2.0", "2.0.0", "3.0.0"];
    let cases = [
        "1.1.0 || 1.2.0 || 3.0.0",
        ">=1.1.0 <1.3.0 || >=2.5.0",
        "1.0.0 || 1.1.0 || 2.0.0 || 3.0.0",
        "<=1.0.0 || 2.0.0",
    ];
    for r in cases {
        let s = simplify_range(&versions, r, o).unwrap();
        for v in versions {
            assert_eq!(semver_rs::satisfies(v, &s, o), semver_rs::satisfies(v, r, o), "{r} -> {s}: {v}");
        }
    }
    assert_eq!(
        simplify_range(&versions, ">=1.1.0 <1.3.0 || >=2.5.0", o).as_deref(),
        Some("1.1.0 - 1.2.0 || >=3.0.0")
    );
    assert_eq!(
        simplify_range(&versions, "1.1.0 || 1.2.0 || 3.0.0", o).as_deref(),
        Some("1.1.0 || 1.2.0 || 3.0.0")
    );
}

#[test]
fn intersection_is_found_between_the_bounds() {
    let with_pre = Options::new().with_include_prerelease(true);
    // `1.0.1-1` lies in both, though no bound does.
    assert!(semver_rs::satisfies("1.0.1-1", ">1.0.0 <1.0.1-5", with_pre));
    assert!(semver_rs::satisfies("1.0.1-1", "*", with_pre));
    assert_eq!(intersects(">1.0.0 <1.0.1-5", "*", with_pre), Ok(true));
    // Without prereleases admitted, `*` takes no prerelease, and the first
    // range takes only prereleases of `1.0.1`.
    let o = Options::new();
    assert_eq!(intersects(">1.0.0 <1.0.1-5", "*", o), Ok(false));
    // The only version of the first range falls to the prerelease rule in
    // the second.
    assert_eq!(intersects("1.2.3-alpha", ">=1.0.0", o), Ok(false));
    assert_eq!(intersects("1.2.3-alpha", ">=1.0.0", with_pre), Ok(true));
    assert_eq!(intersects("1.2.3-alpha", ">=1.2.3-0", o), Ok(true));
}

#[test]
fn simplifying_keeps_the_range_where_a_hyphen_run_ends_past_the_safe_limit() {
    let ip = Options::new().with_include_prerelease(true);
    let versions = ["0.5.0", "1.0.0", "1.0.9007199254740991", "2.0.0"];
    let r = "1.0.0 || 1.0.9007199254740991 || 1.0.0 || 1.0.0";
    // The run would read `1.0.0 - 1.0.9007199254740991`, whose upper end
    // reads as `<1.0.9007199254740992-0`, which is refused.
    assert_eq!(semver_rs::valid_range("1.0.0 - 1.0.9007199254740991", ip), None);
    let s = simplify_range(&versions, r, ip).unwrap();
    assert_eq!(s, r);
    assert!(semver_rs::satisfies("1.0.0", &s, ip));
}

#[test]
fn above_a_range_means_above_every_version_in_it() {
    let o = Options::new();
    assert_eq!(gtr("2.0.0", "^1.2.0", o), Ok(true));
    assert_eq!(ltr("1.1.0", "^1.2.0", o), Ok(true));
    for w in ["1.2.0", "1.5.3", "1.99.99"] {
        assert!(semver_rs::satisfies(w, "^1.2.0", o));
        assert_eq!(semver_rs::compare("2.0.0", w, o), Ok(1));
        assert_eq!(semver_rs::compare("1.1.0", w, o), Ok(-1));
    }
}

#[test]
fn a_build_tag_on_the_text_never_changes_the_answer() {
    let o = Options::new();
    for (v, r) in [("1.2.3", "^1.2.0"), ("1.3.0-beta.1", ">=1.3.0-alpha <1.3.0"), ("2.0.0", "<2.0.0")] {
        let p = semver_rs::parse(v, o).unwrap();
        for tag in ["a", "build7", "Z9"] {
            let tagged = format!("{}+{}", p.version(), tag);
            assert_eq!(semver_rs::satisfies(v, r, o), semver_rs::satisfies(&tagged, r, o), "{tagged} {r}");
        }
    }
}
