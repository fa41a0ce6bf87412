//! Semantic versions: parsing, precedence, ranges and increments, with the
//! behaviour of npm's `node-semver`.
//!
//! Every function here states in its contract what it returns, over the
//! models in [`semver`] (versions), [`range`] (ranges) and
//! [`identifiers`] (prerelease identifiers).
use vstd::prelude::*;

pub mod canonical;
pub mod comparator;
pub mod constants;
pub mod desugar;
pub mod differential;
pub mod error;
pub mod functions;
pub mod identifiers;
pub mod increment;
pub mod range;
pub mod readback;
pub mod reading;
pub mod relations;
pub mod semver;
pub mod text;
pub mod witness;

pub use comparator::{Comparator, Op};
pub use constants::{IntoOptions, Options};
pub use error::{Error, Result};
pub use identifiers::{compare_identifier_lists, compare_identifiers, rcompare_identifiers, Identifier};
pub use functions::{
    clean, cmp, coerce, compare_build, compare_loose, diff, major, minor, patch, prerelease, rsort,
    simplify_range, sort, truncate,
};
pub use increment::{IdentifierBase, Release};
pub use range::{ComparatorSet, Range};
pub use relations::{gtr, intersects, ltr, min_version, outside, subset, to_comparators};
pub use semver::SemVer;

use crate::increment::{inc_spec, opt_text, release_named};
use crate::comparator::CompView;
use crate::text::chars_of;
use crate::range::{lemma_range_test_ignores_build, range_parse, range_test, range_text, RangeErr};
use crate::canonical::{
    build_suffix, build_tag, lemma_render_tagged_reparses, lemma_strict_parse_strict_ids, strict_ids,
};
use crate::semver::{
    lemma_ver_order_antisym, lemma_ver_order_trans,
    lemma_parse_outcome_ok, lemma_parsed_well_formed, parse_outcome, parsed, render, too_long,
    ver_order, VersionView,
};

verus! {

/// What comparing two version texts gives: their precedence as -1, 0 or
/// 1, or the error of the first one that does not parse.
pub open spec fn order_outcome(a: Seq<char>, b: Seq<char>, o: Options, r: Result<i8>) -> bool {
    match (parsed(a, o), parsed(b, o)) {
        (Some(x), Some(y)) => r == Ok::<i8, Error>(ver_order(x, y)),
        (None, _) => r matches Err(e) && parse_outcome(a, o, Err(e)),
        (Some(_), None) => r matches Err(e) && parse_outcome(b, o, Err(e)),
    }
}

/// A precedence `c` of `a` against `b` says `a` ranks above `b`.
pub open spec fn above(c: i8) -> bool {
    c > 0
}

/// `a` ranks below `b`.
pub open spec fn below(c: i8) -> bool {
    c < 0
}

/// `a` and `b` rank equal.
pub open spec fn level(c: i8) -> bool {
    c == 0
}

/// `a` ranks at or above `b`.
pub open spec fn at_or_above(c: i8) -> bool {
    c >= 0
}

/// `a` ranks at or below `b`.
pub open spec fn at_or_below(c: i8) -> bool {
    c <= 0
}

/// What a yes/no comparison gives: `test` applied to the precedence, or
/// the error of the first text that does not parse.
pub open spec fn test_outcome(
    a: Seq<char>,
    b: Seq<char>,
    o: Options,
    test: spec_fn(i8) -> bool,
    r: Result<bool>,
) -> bool {
    match (parsed(a, o), parsed(b, o)) {
        (Some(x), Some(y)) => r == Ok::<bool, Error>(test(ver_order(x, y))),
        (None, _) => r matches Err(e) && parse_outcome(a, o, Err(e)),
        (Some(_), None) => r matches Err(e) && parse_outcome(b, o, Err(e)),
    }
}

/// Parse a version, returning `None` when it is invalid.
pub fn parse<O: IntoOptions>(version: &str, options: O) -> (r: Option<SemVer>)
    ensures
        match parsed(version@, options.as_options()) {
            Some(v) => r is Some && r->Some_0@ == v && r->Some_0.options == options.as_options(),
            None => r is None,
        },
{
    let o = options.into_options();
    let res = SemVer::parse_with(version, o);
    proof {
        lemma_parse_outcome_ok(version@, o, res);
    }
    match res {
        Ok(v) => Some(v),
        Err(_) => None,
    }
}

/// Whether a version string is valid, returning its canonical form.
pub fn valid<O: IntoOptions>(version: &str, options: O) -> (r: Option<String>)
    ensures
        match parsed(version@, options.as_options()) {
            Some(v) => r is Some && r->Some_0@ == render(v),
            None => r is None,
        },
{
    match parse(version, options) {
        Some(v) => Some(v.version()),
        None => None,
    }
}

/// Compare two versions: `-1`, `0`, or `1`, or the error of the first
/// one that does not parse.
pub fn compare<O: IntoOptions>(a: &str, b: &str, options: O) -> (r: Result<i8>)
    ensures
        order_outcome(a@, b@, options.as_options(), r),
{
    let o = options.into_options();
    let x = SemVer::parse_with(a, o);
    proof {
        lemma_parse_outcome_ok(a@, o, x);
    }
    let x = match x {
        Ok(x) => x,
        Err(e) => {
            return Err(e);
        },
    };
    let y = SemVer::parse_with(b, o);
    proof {
        lemma_parse_outcome_ok(b@, o, y);
    }
    let y = match y {
        Ok(y) => y,
        Err(e) => {
            return Err(e);
        },
    };
    Ok(x.order(&y))
}

/// Reversing the arguments flips the sign of the comparison.
pub proof fn lemma_rcompare_flips(a: Seq<char>, b: Seq<char>, o: Options, x: i8, y: i8)
    requires
        order_outcome(a, b, o, Ok(x)),
        order_outcome(b, a, o, Ok(y)),
    ensures
        x == -y,
{
    if let (Some(p), Some(q)) = (parsed(a, o), parsed(b, o)) {
        lemma_ver_order_antisym(p, q);
    }
}

/// Reverse comparison.
pub fn rcompare<O: IntoOptions>(a: &str, b: &str, options: O) -> (r: Result<i8>)
    ensures
        order_outcome(b@, a@, options.as_options(), r),
{
    compare(b, a, options)
}

/// `a > b` by precedence.
pub fn gt<O: IntoOptions>(a: &str, b: &str, options: O) -> (r: Result<bool>)
    ensures
        test_outcome(a@, b@, options.as_options(), |c: i8| above(c), r),
{
    match compare(a, b, options) {
        Ok(c) => Ok(c > 0),
        Err(e) => Err(e),
    }
}

/// `a < b` by precedence.
pub fn lt<O: IntoOptions>(a: &str, b: &str, options: O) -> (r: Result<bool>)
    ensures
        test_outcome(a@, b@, options.as_options(), |c: i8| below(c), r),
{
    match compare(a, b, options) {
        Ok(c) => Ok(c < 0),
        Err(e) => Err(e),
    }
}

/// `a == b` by precedence.
pub fn eq<O: IntoOptions>(a: &str, b: &str, options: O) -> (r: Result<bool>)
    ensures
        test_outcome(a@, b@, options.as_options(), |c: i8| level(c), r),
{
    match compare(a, b, options) {
        Ok(c) => Ok(c == 0),
        Err(e) => Err(e),
    }
}

/// `a != b` by precedence.
pub fn neq<O: IntoOptions>(a: &str, b: &str, options: O) -> (r: Result<bool>)
    ensures
        test_outcome(a@, b@, options.as_options(), |c: i8| !level(c), r),
{
    match compare(a, b, options) {
        Ok(c) => Ok(c != 0),
        Err(e) => Err(e),
    }
}

/// `a >= b` by precedence.
pub fn gte<O: IntoOptions>(a: &str, b: &str, options: O) -> (r: Result<bool>)
    ensures
        test_outcome(a@, b@, options.as_options(), |c: i8| at_or_above(c), r),
{
    match compare(a, b, options) {
        Ok(c) => Ok(c >= 0),
        Err(e) => Err(e),
    }
}

/// `a <= b` by precedence.
pub fn lte<O: IntoOptions>(a: &str, b: &str, options: O) -> (r: Result<bool>)
    ensures
        test_outcome(a@, b@, options.as_options(), |c: i8| at_or_below(c), r),
{
    match compare(a, b, options) {
        Ok(c) => Ok(c <= 0),
        Err(e) => Err(e),
    }
}

/// Whether a version text satisfies a range text: both must parse.
pub open spec fn satisfies_spec(version: Seq<char>, range: Seq<char>, o: Options) -> bool {
    match range_parse(range, o) {
        Ok(sets) => match parsed(version, o) {
            Some(v) => range_test(sets, v, o),
            None => false,
        },
        Err(_) => false,
    }
}

/// The named comparisons relate as an order does, for any two versions:
/// no version is above or below itself, and every version is level with,
/// at or above, and at or below itself; `x` is above `y` exactly when `y`
/// is below `x`; at or above is above or level, at or below is below or
/// level, which is not above; and the operators `cmp` reads agree with
/// them (`">"` with above, `"<"` with below, `"=="` with level, `"!="`
/// with not level, `">="` with at or above, `"<="` with at or below).
pub proof fn lemma_comparisons_agree(x: VersionView, y: VersionView)
    ensures
        !above(ver_order(x, x)),
        !below(ver_order(x, x)),
        level(ver_order(x, x)),
        at_or_above(ver_order(x, x)),
        at_or_below(ver_order(x, x)),
        above(ver_order(x, y)) == below(ver_order(y, x)),
        level(ver_order(x, y)) == level(ver_order(y, x)),
        at_or_above(ver_order(x, y)) == (above(ver_order(x, y)) || level(ver_order(x, y))),
        at_or_below(ver_order(x, y)) == (below(ver_order(x, y)) || level(ver_order(x, y))),
        at_or_below(ver_order(x, y)) == !above(ver_order(x, y)),
        crate::functions::op_holds(">"@, ver_order(x, y)) == Some(above(ver_order(x, y))),
        crate::functions::op_holds("<"@, ver_order(x, y)) == Some(below(ver_order(x, y))),
        crate::functions::op_holds("=="@, ver_order(x, y)) == Some(level(ver_order(x, y))),
        crate::functions::op_holds("!="@, ver_order(x, y)) == Some(!level(ver_order(x, y))),
        crate::functions::op_holds(">="@, ver_order(x, y)) == Some(at_or_above(ver_order(x, y))),
        crate::functions::op_holds("<="@, ver_order(x, y)) == Some(at_or_below(ver_order(x, y))),
{
    lemma_ver_order_antisym(x, y);
    lemma_ver_order_antisym(x, x);
    crate::functions::lemma_cmp_operators(ver_order(x, y));
}

/// How `compare` decides: by the numbers first, major, then minor, then
/// patch; with equal numbers a release ranks above its prereleases, and
/// the same numbers and prerelease rank equal; swapping the two texts
/// swaps the answer.
pub proof fn lemma_compare_decides(a: Seq<char>, b: Seq<char>, o: Options, c: i8)
    requires
        order_outcome(a, b, o, Ok(c)),
    ensures
        parsed(a, o) is Some && parsed(b, o) is Some,
        ({
            let x = parsed(a, o)->Some_0;
            let y = parsed(b, o)->Some_0;
            &&& x.major > y.major ==> c == 1
            &&& x.major < y.major ==> c == -1
            &&& (x.major == y.major && x.minor > y.minor) ==> c == 1
            &&& (x.major == y.major && x.minor < y.minor) ==> c == -1
            &&& (x.major == y.major && x.minor == y.minor && x.patch > y.patch) ==> c == 1
            &&& (x.major == y.major && x.minor == y.minor && x.patch < y.patch) ==> c == -1
            &&& (x.major == y.major && x.minor == y.minor && x.patch == y.patch && x.pre.len() == 0
                && y.pre.len() > 0) ==> c == 1
            &&& (x.major == y.major && x.minor == y.minor && x.patch == y.patch && x.pre.len() > 0
                && y.pre.len() == 0) ==> c == -1
            &&& (x.major == y.major && x.minor == y.minor && x.patch == y.patch && x.pre == y.pre)
                ==> c == 0
        }),
        forall|d: i8| order_outcome(b, a, o, Ok(d)) ==> d == -c,
{
    let x = parsed(a, o)->Some_0;
    let y = parsed(b, o)->Some_0;
    lemma_ver_order_antisym(x, y);
}

/// Build metadata appended to the canonical form of a version does not
/// change which ranges admit it: the tagged text satisfies a range
/// exactly when the version's own text does (for a loose read, as long as
/// no text identifier is a run of digits with a leading zero, which the
/// canonical form would read back as a number).
pub proof fn lemma_satisfies_ignores_build_text(
    version: Seq<char>,
    range: Seq<char>,
    tag: Seq<char>,
    o: Options,
)
    requires
        parsed(version, o) is Some,
        !o.loose || strict_ids(parsed(version, o)->Some_0.pre),
        build_tag(tag),
        !too_long(render(parsed(version, o)->Some_0) + build_suffix(tag)),
    ensures
        satisfies_spec(version, range, o) == satisfies_spec(
            render(parsed(version, o)->Some_0) + build_suffix(tag),
            range,
            o,
        ),
{
    let p = parsed(version, o)->Some_0;
    lemma_parsed_well_formed(version, o);
    lemma_strict_parse_strict_ids(version, o);
    lemma_render_tagged_reparses(p, o.loose, tag);
    let q = VersionView { build: seq![tag], ..p };
    assert(parsed(render(p) + build_suffix(tag), o) == Some(q));
    if let Ok(sets) = range_parse(range, o) {
        lemma_range_test_ignores_build(sets, p, q, o);
    }
}

/// Whether a version satisfies a range; `false` when either does not
/// parse.
pub fn satisfies<O: IntoOptions>(version: &str, range: &str, options: O) -> (r: bool)
    ensures
        r == satisfies_spec(version@, range@, options.as_options()),
{
    let o = options.into_options();
    match Range::parse(range, o) {
        Ok(r) => r.test_str(version),
        Err(_) => false,
    }
}

/// A range's canonical form, or `None` if it does not parse.
pub fn valid_range<O: IntoOptions>(range: &str, options: O) -> (r: Option<String>)
    ensures
        match range_parse(range@, options.as_options()) {
            Ok(sets) => r is Some && r->Some_0@ == range_text(sets),
            Err(_) => r is None,
        },
{
    match Range::parse(range, options) {
        Ok(r) => Some(r.to_string()),
        Err(_) => None,
    }
}

/// The texts of a list of string slices.
pub open spec fn strs_view(v: Seq<&str>) -> Seq<Seq<char>> {
    v.map_values(|s: &str| s@)
}

/// The version a text reads as, when it satisfies the range.
#[verifier::opaque]
pub open spec fn sat_version(t: Seq<char>, sets: Seq<Seq<CompView>>, o: Options) -> Option<
    VersionView,
> {
    match parsed(t, o) {
        Some(v) => if range_test(sets, v, o) {
            Some(v)
        } else {
            None
        },
        None => None,
    }
}

/// Whether `a` beats `b`: higher precedence when looking for the highest,
/// lower when looking for the lowest.
pub open spec fn beats(a: VersionView, b: VersionView, highest: bool) -> bool {
    if highest {
        ver_order(a, b) > 0
    } else {
        ver_order(a, b) < 0
    }
}

/// `i` is the first of the best satisfying versions in `vs`: it
/// satisfies, none beats it, and every earlier one that satisfies is
/// beaten by it.
pub open spec fn is_best(
    vs: Seq<Seq<char>>,
    i: int,
    sets: Seq<Seq<CompView>>,
    o: Options,
    highest: bool,
) -> bool {
    &&& 0 <= i < vs.len()
    &&& sat_version(vs[i], sets, o) is Some
    &&& forall|k: int|
        0 <= k < vs.len() && #[trigger] sat_version(vs[k], sets, o) is Some ==> !beats(
            sat_version(vs[k], sets, o)->Some_0,
            sat_version(vs[i], sets, o)->Some_0,
            highest,
        )
    &&& forall|k: int|
        0 <= k < i && #[trigger] sat_version(vs[k], sets, o) is Some ==> beats(
            sat_version(vs[i], sets, o)->Some_0,
            sat_version(vs[k], sets, o)->Some_0,
            highest,
        )
}

/// What choosing the best satisfying version gives.
pub open spec fn best_outcome(
    versions: Seq<&str>,
    range: Seq<char>,
    o: Options,
    highest: bool,
    r: Option<&str>,
) -> bool {
    match range_parse(range, o) {
        Err(_) => r is None,
        Ok(sets) => match r {
            None => forall|k: int|
                0 <= k < versions.len() ==> #[trigger] sat_version(versions[k]@, sets, o) is None,
            Some(s) => exists|i: int|
                is_best(strs_view(versions), i, sets, o, highest) && s == #[trigger] versions[i],
        },
    }
}

proof fn lemma_beats_step(a: VersionView, b: VersionView, c: VersionView, highest: bool)
    requires
        !beats(a, b, highest),
        beats(c, b, highest),
    ensures
        beats(c, a, highest),
{
    lemma_ver_order_antisym(a, b);
    lemma_ver_order_antisym(c, b);
    lemma_ver_order_antisym(a, c);
    if highest {
        lemma_ver_order_trans(a, b, c);
        if ver_order(a, c) == 0 {
            lemma_ver_order_trans(c, a, b);
        }
    } else {
        lemma_ver_order_trans(c, b, a);
        if ver_order(c, a) == 0 {
            lemma_ver_order_trans(b, c, a);
        }
    }
}

fn pick_best<'a>(versions: &[&'a str], range: &str, o: Options, highest: bool) -> (r: Option<
    &'a str,
>)
    ensures
        best_outcome(versions@, range@, o, highest, r),
{
    let rg = match Range::parse(range, o) {
        Ok(rg) => rg,
        Err(_) => {
            return None;
        },
    };
    let ghost sets = rg@;
    let ghost vs = strs_view(versions@);
    let mut best: Option<(usize, SemVer)> = None;
    let mut i: usize = 0;
    while i < versions.len()
        invariant
            i <= versions@.len(),
            sets == rg@,
            range_parse(range@, o) == Ok::<Seq<Seq<CompView>>, RangeErr>(sets),
            rg.opts() == o,
            vs == strs_view(versions@),
            best is None ==> forall|k: int|
                0 <= k < i ==> #[trigger] sat_version(vs[k], sets, o) is None,
            best matches Some((b, bv)) ==> b < i && sat_version(vs[b as int], sets, o) == Some(
                bv@,
            ) && (forall|k: int|
                0 <= k < i && #[trigger] sat_version(vs[k], sets, o) is Some ==> !beats(
                    sat_version(vs[k], sets, o)->Some_0,
                    bv@,
                    highest,
                )) && (forall|k: int|
                0 <= k < b && #[trigger] sat_version(vs[k], sets, o) is Some ==> beats(
                    bv@,
                    sat_version(vs[k], sets, o)->Some_0,
                    highest,
                )),
        decreases versions@.len() - i,
    {
        assert(vs[i as int] == versions@[i as int]@);
        let chars = chars_of(versions[i]);
        let parsed_v = crate::semver::parse_chars(&chars, o);
        let ok = match &parsed_v {
            None => false,
            Some(p) => rg.test(p),
        };
        assert(ok == (sat_version(vs[i as int], sets, o) is Some)) by {
            reveal(sat_version);
        }
        assert(ok ==> sat_version(vs[i as int], sets, o) == Some(parsed_v->Some_0@)) by {
            reveal(sat_version);
        }
        match parsed_v {
            None => {},
            Some(p) => {
                if ok {
                    let replace = match &best {
                        None => true,
                        Some((_, bv)) => {
                            let c = p.order(bv);
                            if highest {
                                c > 0
                            } else {
                                c < 0
                            }
                        },
                    };
                    if replace {
                        proof {
                            if let Some((b, bv)) = best {
                                assert forall|k: int|
                                    0 <= k < i && #[trigger] sat_version(vs[k], sets, o)
                                        is Some implies beats(
                                    p@,
                                    sat_version(vs[k], sets, o)->Some_0,
                                    highest,
                                ) by {
                                    lemma_beats_step(
                                        sat_version(vs[k], sets, o)->Some_0,
                                        bv@,
                                        p@,
                                        highest,
                                    );
                                }
                            }
                            assert forall|k: int|
                                0 <= k < i + 1 && #[trigger] sat_version(vs[k], sets, o)
                                    is Some implies !beats(
                                sat_version(vs[k], sets, o)->Some_0,
                                p@,
                                highest,
                            ) by {
                                lemma_ver_order_antisym(sat_version(vs[k], sets, o)->Some_0, p@);
                            }
                            lemma_ver_order_antisym(p@, p@);
                        }
                        best = Some((i, p));
                    }
                }
            },
        }
        proof {
            if best is None {
                assert(!ok);
                assert(sat_version(vs[i as int], sets, o) is None);
                assert forall|k: int| 0 <= k < i + 1 implies #[trigger] sat_version(
                    vs[k],
                    sets,
                    o,
                ) is None by {
                    if k == i {
                        assert(!ok);
                    }
                }
            }
        }
        i = i + 1;
    }
    assert forall|k: int| 0 <= k < versions@.len() implies #[trigger] vs[k] == versions@[k]@ by {}
    match best {
        None => {
            assert forall|k: int| 0 <= k < versions@.len() implies #[trigger] sat_version(
                versions@[k]@,
                sets,
                o,
            ) is None by {
                assert(vs[k] == versions@[k]@);
            }
            None
        },
        Some((b, _)) => {
            assert(is_best(vs, b as int, sets, o, highest));
            assert(vs[b as int] == versions@[b as int]@);
            let s = versions[b];
            assert(s == versions@[b as int]);
            assert(is_best(strs_view(versions@), b as int, sets, o, highest) && s == versions@[b as int]);
            Some(s)
        },
    }
}

/// The first of the highest versions in `versions` that satisfy `range`.
pub fn max_satisfying<'a, O: IntoOptions>(versions: &[&'a str], range: &str, options: O) -> (r:
    Option<&'a str>)
    ensures
        best_outcome(versions@, range@, options.as_options(), true, r),
{
    pick_best(versions, range, options.into_options(), true)
}

/// The first of the lowest versions in `versions` that satisfy `range`.
pub fn min_satisfying<'a, O: IntoOptions>(versions: &[&'a str], range: &str, options: O) -> (r:
    Option<&'a str>)
    ensures
        best_outcome(versions@, range@, options.as_options(), false, r),
{
    pick_best(versions, range, options.into_options(), false)
}

/// Increment a version, returning the new canonical version string, or
/// `None` when the version or the release kind is invalid, or the
/// increment cannot be applied.
pub fn inc<O: IntoOptions>(
    version: &str,
    release: &str,
    identifier: Option<&str>,
    base: IdentifierBase,
    options: O,
) -> (r: Option<String>)
    ensures
        match (parsed(version@, options.as_options()), release_named(release@)) {
            (Some(v), Some(k)) => match inc_spec(
                v,
                k,
                opt_text(identifier),
                base,
                options.as_options().loose,
            ) {
                Some(w) => r is Some && r->Some_0@ == render(w),
                None => r is None,
            },
            _ => r is None,
        },
{
    let o = options.into_options();
    proof {
        lemma_parsed_well_formed(version@, o);
    }
    let v = match parse(version, o) {
        Some(v) => v,
        None => {
            return None;
        },
    };
    let k = match Release::parse(release) {
        Ok(k) => k,
        Err(_) => {
            return None;
        },
    };
    match v.inc(k, identifier, base) {
        Ok(x) => Some(x.version()),
        Err(_) => None,
    }
}

} // verus!
