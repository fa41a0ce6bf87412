use semver_rs::range::replace_xrange;
use semver_rs::Options;

#[test]
fn xrange_declines_bare_number_with_prerelease() {
    let o = Options::loose();
    assert_eq!(replace_xrange(">=09090-0", o), None);
}
