//! Questions about ranges rather than about one version: the lowest
//! version a range admits, whether two ranges overlap, whether one is
//! contained in another, and whether a version lies above or below one.
use crate::comparator::{comp_well_formed, comp_test, comp_text, CompView, Comparator, Op};
use crate::constants::{IntoOptions, Options};
use crate::error::{Error, Result};
use crate::range::{
    comps_view, comps_wf, range_error_is, range_parse, range_test, set_test, sets_view, Range,
    RangeErr,
};
use crate::semver::{
    lemma_parse_outcome_ok, lemma_ver_order_antisym, lemma_ver_order_reflexive, lemma_ver_order_trans,
    parse_outcome, parsed, ver_order, SemVer, VersionView,
};
use crate::text::chars_of;
use crate::witness::{
    all_comps, is_rep, lemma_admitted_is_anchored, lemma_rep_stands_for, lemma_same_range_verdict,
    push_range_comps, reps_of,
};
use vstd::prelude::*;

verus! {

// ── bounds ──────────────────────────────────────────────────────────────
/// A bound: the version and whether it is inclusive.
pub type BoundView = Option<(VersionView, bool)>;

/// An operator that bounds from below.
pub open spec fn is_lower(op: Op) -> bool {
    op == Op::Gt || op == Op::Gte
}

/// An operator that bounds from above.
pub open spec fn is_upper(op: Op) -> bool {
    op == Op::Lt || op == Op::Lte
}

/// Tighten the bounds with one comparator: a higher lower bound, or a
/// lower upper bound, replaces the current one (an exclusive bound beats
/// an inclusive one at the same version); `=` sets both.
pub open spec fn bound_step(b: (BoundView, BoundView), c: CompView) -> (BoundView, BoundView) {
    let (lo, hi) = b;
    match c.ver {
        None => (lo, hi),
        Some(v) => if is_lower(c.op) {
            let inc = c.op == Op::Gte;
            let better = match lo {
                None => true,
                Some((cur, ci)) => ver_order(v, cur) > 0 || (ver_order(v, cur) == 0 && ci && !inc),
            };
            if better {
                (Some((v, inc)), hi)
            } else {
                (lo, hi)
            }
        } else if is_upper(c.op) {
            let inc = c.op == Op::Lte;
            let better = match hi {
                None => true,
                Some((cur, ci)) => ver_order(v, cur) < 0 || (ver_order(v, cur) == 0 && ci && !inc),
            };
            if better {
                (lo, Some((v, inc)))
            } else {
                (lo, hi)
            }
        } else {
            (Some((v, true)), Some((v, true)))
        },
    }
}

/// The tightest lower and upper bounds a comparator set expresses.
pub open spec fn bounds(cs: Seq<CompView>) -> (BoundView, BoundView)
    decreases cs.len(),
{
    if cs.len() == 0 {
        (None, None)
    } else {
        bound_step(bounds(cs.drop_last()), cs.last())
    }
}

/// A bound in executable form.
pub type Bound = Option<(SemVer, bool)>;

pub open spec fn bound_view(b: Bound) -> BoundView {
    match b {
        Some((v, i)) => Some((v@, i)),
        None => None,
    }
}

/// The tightest bounds of a comparator set.
pub fn set_bounds(set: &Vec<Comparator>) -> (r: (Bound, Bound))
    ensures
        (bound_view(r.0), bound_view(r.1)) == bounds(comps_view(set@)),
{
    let ghost cv = comps_view(set@);
    let mut lo: Bound = None;
    let mut hi: Bound = None;
    let mut i: usize = 0;
    while i < set.len()
        invariant
            i <= set@.len(),
            cv == comps_view(set@),
            (bound_view(lo), bound_view(hi)) == bounds(cv.take(i as int)),
        decreases set@.len() - i,
    {
        assert(cv.take(i + 1).drop_last() =~= cv.take(i as int));
        assert(cv.take(i + 1).last() == set@[i as int]@);
        let c = &set[i];
        match &c.version {
            None => {},
            Some(v) => {
                if c.op == Op::Gt || c.op == Op::Gte {
                    let inc = c.op == Op::Gte;
                    let better = match &lo {
                        None => true,
                        Some((cur, ci)) => {
                            let k = v.order(cur);
                            k > 0 || (k == 0 && *ci && !inc)
                        },
                    };
                    if better {
                        lo = Some((v.copy(), inc));
                    }
                } else if c.op == Op::Lt || c.op == Op::Lte {
                    let inc = c.op == Op::Lte;
                    let better = match &hi {
                        None => true,
                        Some((cur, ci)) => {
                            let k = v.order(cur);
                            k < 0 || (k == 0 && *ci && !inc)
                        },
                    };
                    if better {
                        hi = Some((v.copy(), inc));
                    }
                } else {
                    lo = Some((v.copy(), true));
                    hi = Some((v.copy(), true));
                }
            },
        }
        i = i + 1;
    }
    assert(cv.take(set@.len() as int) =~= cv);
    (lo, hi)
}

// ── the lowest version ──────────────────────────────────────────────────
/// Some version satisfies the range.
pub open spec fn admits_some(sets: Seq<Seq<CompView>>, o: Options) -> bool {
    exists|v: VersionView| #[trigger] range_test(sets, v, o)
}

/// `m` satisfies the range and ranks at or below every version that
/// does.
pub open spec fn lowest_admitted(sets: Seq<Seq<CompView>>, m: VersionView, o: Options) -> bool {
    &&& range_test(sets, m, o)
    &&& forall|v: VersionView| #[trigger] range_test(sets, v, o) ==> ver_order(m, v) <= 0
}

/// Comparators kept by their options are well formed, one by one.
proof fn lemma_comps_well_formed(cs: Vec<Comparator>, o: Options)
    requires
        comps_wf(cs@, o),
    ensures
        forall|k: int|
            0 <= k < comps_view(cs@).len() ==> comp_well_formed(#[trigger] comps_view(cs@)[k]),
{
    assert forall|k: int| 0 <= k < comps_view(cs@).len() implies comp_well_formed(
        #[trigger] comps_view(cs@)[k],
    ) by {
        assert(comps_view(cs@)[k] == cs@[k]@);
    }
}

/// The lowest version that satisfies a range, without build metadata;
/// `None` when the range does not parse or nothing satisfies it.
pub fn min_version<O: IntoOptions>(range: &str, options: O) -> (r: Option<SemVer>)
    ensures
        match range_parse(range@, options.as_options()) {
            Err(_) => r is None,
            Ok(sets) => match r {
                None => !admits_some(sets, options.as_options()),
                Some(m) => lowest_admitted(sets, m@, options.as_options()) && m@.build.len() == 0
                    && m.options == options.as_options(),
            },
        },
{
    let o = options.into_options();
    let r = match Range::parse(range, o) {
        Ok(r) => r,
        Err(_) => {
            return None;
        },
    };
    let ghost sets = r@;
    let mut cs: Vec<Comparator> = Vec::new();
    assert(comps_view(cs@) =~= Seq::<CompView>::empty());
    push_range_comps(&r, &mut cs, o);
    let ghost cv = comps_view(cs@);
    assert(cv =~= all_comps(sets));
    proof {
        lemma_comps_well_formed(cs, o);
    }
    let reps = reps_of(&cs, o);
    let mut best: Option<usize> = None;
    let mut p: usize = 0;
    while p < reps.len()
        invariant
            p <= reps@.len(),
            sets == r@,
            r.opts() == o,
            match best {
                Some(b) => b < p && range_test(sets, reps@[b as int]@, o) && forall|q: int|
                    0 <= q < p && range_test(sets, (#[trigger] reps@[q])@, o) ==> ver_order(
                        reps@[b as int]@,
                        reps@[q]@,
                    ) <= 0,
                None => forall|q: int| 0 <= q < p ==> !range_test(sets, (#[trigger] reps@[q])@, o),
            },
        decreases reps@.len() - p,
    {
        if r.test(&reps[p]) {
            let better = match best {
                None => true,
                Some(b) => reps[p].order(&reps[b]) < 0,
            };
            if better {
                proof {
                    lemma_ver_order_reflexive(reps@[p as int]@);
                    if let Some(b) = best {
                        assert forall|q: int|
                            0 <= q < p + 1 && range_test(sets, (#[trigger] reps@[q])@, o) implies ver_order(
                            reps@[p as int]@,
                            reps@[q]@,
                        ) <= 0 by {
                            if q < p {
                                lemma_ver_order_trans(reps@[p as int]@, reps@[b as int]@, reps@[q]@);
                            }
                        }
                    }
                }
                best = Some(p);
            } else {
                proof {
                    if let Some(b) = best {
                        lemma_ver_order_antisym(reps@[p as int]@, reps@[b as int]@);
                    }
                }
            }
        }
        p = p + 1;
    }
    match best {
        None => {
            proof {
                if admits_some(sets, o) {
                    let v = choose|v: VersionView| #[trigger] range_test(sets, v, o);
                    lemma_admitted_is_anchored(sets, cv, 0, v, o);
                    let w = lemma_rep_stands_for(cv, v, o);
                    lemma_same_range_verdict(sets, cv, 0, w, v, o);
                    assert(is_rep(comps_view(cs@), w));
                    let q = choose|q: int| 0 <= q < reps@.len() && reps@[q]@ == w;
                    assert(range_test(sets, reps@[q]@, o));
                }
            }
            None
        },
        Some(b) => {
            let m = reps[b].copy();
            proof {
                assert forall|v: VersionView| #[trigger] range_test(sets, v, o) implies ver_order(
                    m@,
                    v,
                ) <= 0 by {
                    lemma_admitted_is_anchored(sets, cv, 0, v, o);
                    let w = lemma_rep_stands_for(cv, v, o);
                    lemma_same_range_verdict(sets, cv, 0, w, v, o);
                    assert(is_rep(comps_view(cs@), w));
                    let q = choose|q: int| 0 <= q < reps@.len() && reps@[q]@ == w;
                    assert(range_test(sets, reps@[q]@, o));
                    lemma_ver_order_trans(m@, w, v);
                }
            }
            Some(m)
        },
    }
}
// ── containment ─────────────────────────────────────────────────────────
/// Every version the first range admits, the second admits too.
pub open spec fn range_within(sub: Seq<Seq<CompView>>, dom: Seq<Seq<CompView>>, o: Options) -> bool {
    forall|v: VersionView| #[trigger] range_test(sub, v, o) ==> range_test(dom, v, o)
}

/// Whether every version `sub` admits is also admitted by `dom`; the
/// error of the first range that does not parse.
pub fn subset<O: IntoOptions>(sub: &str, dom: &str, options: O) -> (r: Result<bool>)
    ensures
        match (range_parse(sub@, options.as_options()), range_parse(dom@, options.as_options())) {
            (Err(k), _) => r is Err && range_error_is(r->Err_0, k),
            (Ok(_), Err(k)) => r is Err && range_error_is(r->Err_0, k),
            (Ok(ss), Ok(sd)) => r == Ok::<bool, Error>(range_within(ss, sd, options.as_options())),
        },
{
    let o = options.into_options();
    let rsub = Range::parse(sub, o)?;
    let rdom = Range::parse(dom, o)?;
    let ghost ss = rsub@;
    let ghost sd = rdom@;
    let mut cs: Vec<Comparator> = Vec::new();
    assert(comps_view(cs@) =~= Seq::<CompView>::empty());
    push_range_comps(&rsub, &mut cs, o);
    push_range_comps(&rdom, &mut cs, o);
    let ghost cv = comps_view(cs@);
    assert(cv =~= all_comps(ss) + all_comps(sd));
    proof {
        lemma_comps_well_formed(cs, o);
    }
    let reps = reps_of(&cs, o);
    let mut p: usize = 0;
    while p < reps.len()
        invariant
            p <= reps@.len(),
            ss == rsub@,
            sd == rdom@,
            o == options.as_options(),
            range_parse(sub@, o) == Ok::<Seq<Seq<CompView>>, RangeErr>(ss),
            range_parse(dom@, o) == Ok::<Seq<Seq<CompView>>, RangeErr>(sd),
            rsub.opts() == o,
            rdom.opts() == o,
            forall|q: int|
                0 <= q < p ==> (range_test(ss, (#[trigger] reps@[q])@, o) ==> range_test(
                    sd,
                    reps@[q]@,
                    o,
                )),
        decreases reps@.len() - p,
    {
        if rsub.test(&reps[p]) && !rdom.test(&reps[p]) {
            assert(!range_within(ss, sd, o));
            return Ok(false);
        }
        p = p + 1;
    }
    proof {
        assert forall|v: VersionView| #[trigger] range_test(ss, v, o) implies range_test(sd, v, o) by {
            lemma_admitted_is_anchored(ss, cv, 0, v, o);
            let w = lemma_rep_stands_for(cv, v, o);
            lemma_same_range_verdict(ss, cv, 0, w, v, o);
            lemma_same_range_verdict(sd, cv, all_comps(ss).len() as int, w, v, o);
            assert(is_rep(comps_view(cs@), w));
            let q = choose|q: int| 0 <= q < reps@.len() && reps@[q]@ == w;
            assert(range_test(ss, reps@[q]@, o));
        }
    }
    Ok(true)
}
// ── bounds and the versions within them ─────────────────────────────────
/// `v` lies within a lower and an upper bound.
pub open spec fn within(v: VersionView, b: (BoundView, BoundView)) -> bool {
    &&& match b.0 {
        None => true,
        Some((l, inc)) => ver_order(v, l) > 0 || (inc && ver_order(v, l) == 0),
    }
    &&& match b.1 {
        None => true,
        Some((h, inc)) => ver_order(v, h) < 0 || (inc && ver_order(v, h) == 0),
    }
}

proof fn lemma_le_lt(a: VersionView, b: VersionView, c: VersionView)
    requires
        ver_order(a, b) <= 0,
        ver_order(b, c) < 0,
    ensures
        ver_order(a, c) < 0,
{
    lemma_ver_order_trans(a, b, c);
    if ver_order(a, c) == 0 {
        lemma_ver_order_antisym(a, c);
        lemma_ver_order_antisym(b, c);
        lemma_ver_order_antisym(a, b);
        lemma_ver_order_trans(b, c, a);
    }
}

proof fn lemma_lt_le(a: VersionView, b: VersionView, c: VersionView)
    requires
        ver_order(a, b) < 0,
        ver_order(b, c) <= 0,
    ensures
        ver_order(a, c) < 0,
{
    lemma_ver_order_trans(a, b, c);
    if ver_order(a, c) == 0 {
        lemma_ver_order_antisym(a, c);
        lemma_ver_order_antisym(a, b);
        lemma_ver_order_antisym(b, c);
        lemma_ver_order_trans(c, a, b);
    }
}

/// `a <= b <= c` in precedence gives `a <= c`, read from either side.
proof fn lemma_le_le(a: VersionView, b: VersionView, c: VersionView)
    requires
        ver_order(a, b) <= 0,
        ver_order(b, c) <= 0,
    ensures
        ver_order(a, c) <= 0,
        ver_order(c, a) >= 0,
{
    lemma_ver_order_trans(a, b, c);
    lemma_ver_order_antisym(a, c);
}

/// A version that satisfies every comparator of a set lies within the
/// set's bounds.
proof fn lemma_within_bounds(cs: Seq<CompView>, v: VersionView)
    requires
        forall|k: int| 0 <= k < cs.len() ==> comp_test(#[trigger] cs[k], v),
    ensures
        within(v, bounds(cs)),
    decreases cs.len(),
{
    if cs.len() > 0 {
        let init = cs.drop_last();
        assert forall|k: int| 0 <= k < init.len() implies comp_test(#[trigger] init[k], v) by {
            assert(init[k] == cs[k]);
        }
        lemma_within_bounds(init, v);
        assert(comp_test(cs[cs.len() - 1], v));
        if let Some(t) = cs.last().ver {
            lemma_ver_order_antisym(v, t);
        }
    }
}

/// A lower bound `lo` at least as tight as the lower comparator `c`.
pub open spec fn lo_implies(lo: BoundView, c: CompView) -> bool {
    match (lo, c.ver) {
        (Some((l, li)), Some(t)) => if c.op == Op::Gte {
            ver_order(l, t) >= 0
        } else {
            ver_order(l, t) > 0 || (ver_order(l, t) == 0 && !li)
        },
        _ => false,
    }
}

/// An upper bound `hi` at least as tight as the upper comparator `c`.
pub open spec fn hi_implies(hi: BoundView, c: CompView) -> bool {
    match (hi, c.ver) {
        (Some((h, hi_inc)), Some(t)) => if c.op == Op::Lte {
            ver_order(h, t) <= 0
        } else {
            ver_order(h, t) < 0 || (ver_order(h, t) == 0 && !hi_inc)
        },
        _ => false,
    }
}

/// In a set without `=` comparators, the bounds are at least as tight
/// as each of its comparators.
proof fn lemma_bounds_tight(cs: Seq<CompView>)
    requires
        forall|k: int| 0 <= k < cs.len() ==> !((#[trigger] cs[k]).op == Op::Eq && cs[k].ver is Some),
    ensures
        forall|k: int|
            0 <= k < cs.len() && (#[trigger] cs[k]).ver is Some && is_lower(cs[k].op) ==> lo_implies(
                bounds(cs).0,
                cs[k],
            ),
        forall|k: int|
            0 <= k < cs.len() && (#[trigger] cs[k]).ver is Some && is_upper(cs[k].op) ==> hi_implies(
                bounds(cs).1,
                cs[k],
            ),
    decreases cs.len(),
{
    if cs.len() > 0 {
        let init = cs.drop_last();
        assert forall|k: int| 0 <= k < init.len() implies !((#[trigger] init[k]).op == Op::Eq
            && init[k].ver is Some) by {
            assert(init[k] == cs[k]);
        }
        lemma_bounds_tight(init);
        let (lo0, hi0) = bounds(init);
        let c = cs.last();
        let (lo1, hi1) = bounds(cs);
        assert forall|k: int|
            0 <= k < cs.len() && (#[trigger] cs[k]).ver is Some && is_lower(cs[k].op) implies lo_implies(
            lo1,
            cs[k],
        ) by {
            let t = cs[k].ver->Some_0;
            if k == cs.len() - 1 {
                if lo1 != lo0 {
                    lemma_ver_order_reflexive(t);
                } else {
                    let (cur, ci) = lo0->Some_0;
                    lemma_ver_order_antisym(t, cur);
                }
            } else {
                assert(cs[k] == init[k]);
                assert(lo_implies(lo0, cs[k]));
                if lo1 != lo0 {
                    let (cur, ci) = lo0->Some_0;
                    let (n, ni) = lo1->Some_0;
                    lemma_ver_order_antisym(n, cur);
                    lemma_ver_order_antisym(cur, t);
                    lemma_ver_order_antisym(n, t);
                    lemma_le_le(t, cur, n);
                    if ver_order(cur, t) > 0 {
                        lemma_lt_le(t, cur, n);
                    } else if ver_order(n, cur) > 0 {
                        lemma_le_lt(t, cur, n);
                    }
                }
            }
        }
        assert forall|k: int|
            0 <= k < cs.len() && (#[trigger] cs[k]).ver is Some && is_upper(cs[k].op) implies hi_implies(
            hi1,
            cs[k],
        ) by {
            let t = cs[k].ver->Some_0;
            if k == cs.len() - 1 {
                if hi1 != hi0 {
                    lemma_ver_order_reflexive(t);
                } else {
                    let (cur, ci) = hi0->Some_0;
                    lemma_ver_order_antisym(t, cur);
                }
            } else {
                assert(cs[k] == init[k]);
                assert(hi_implies(hi0, cs[k]));
                if hi1 != hi0 {
                    let (cur, ci) = hi0->Some_0;
                    let (n, ni) = hi1->Some_0;
                    lemma_ver_order_antisym(n, cur);
                    lemma_ver_order_antisym(cur, t);
                    lemma_ver_order_antisym(n, t);
                    lemma_le_le(n, cur, t);
                    if ver_order(cur, t) < 0 {
                        lemma_le_lt(n, cur, t);
                    } else if ver_order(n, cur) < 0 {
                        lemma_lt_le(n, cur, t);
                    }
                }
            }
        }
    }
}

// ── above or below ──────────────────────────────────────────────────────
/// Whether `v` lies beyond a set's bounds: above its upper bound, or
/// below its lower bound. A missing bound leaves no room beyond it.
pub open spec fn beyond(v: VersionView, b: (BoundView, BoundView), greater: bool) -> bool {
    if greater {
        b.1 matches Some((h, _)) && ver_order(v, h) > 0
    } else {
        b.0 matches Some((l, _)) && ver_order(v, l) < 0
    }
}

/// The options with prereleases admitted.
pub open spec fn with_prereleases(o: Options) -> Options {
    Options { include_prerelease: true, ..o }
}

/// A prerelease that fails the range only by the prerelease rule: it
/// satisfies the range read with prereleases admitted.
pub open spec fn only_prerelease_excluded(v: VersionView, range: Seq<char>, o: Options) -> bool {
    v.pre.len() > 0 && !o.include_prerelease && match range_parse(range, with_prereleases(o)) {
        Ok(s2) => range_test(s2, v, with_prereleases(o)),
        Err(_) => false,
    }
}

/// Whether `v` lies outside the range on the given side: it does not
/// satisfy it, not even with prereleases admitted, and it lies beyond
/// every set.
pub open spec fn outside_spec(
    v: VersionView,
    sets: Seq<Seq<CompView>>,
    range: Seq<char>,
    o: Options,
    greater: bool,
) -> bool {
    &&& !range_test(sets, v, o)
    &&& !only_prerelease_excluded(v, range, o)
    &&& forall|k: int| 0 <= k < sets.len() ==> beyond(v, bounds(#[trigger] sets[k]), greater)
}

/// What `outside` gives: the version's error, the range's error, or
/// whether the version lies outside on the side `>` names (any other
/// text means below).
pub open spec fn outside_outcome(
    version: Seq<char>,
    range: Seq<char>,
    greater: bool,
    o: Options,
    r: Result<bool>,
) -> bool {
    match parsed(version, o) {
        None => r matches Err(e) && parse_outcome(version, o, Err(e)),
        Some(v) => match range_parse(range, o) {
            Err(k) => r is Err && range_error_is(r->Err_0, k),
            Ok(sets) => r == Ok::<bool, Error>(outside_spec(v, sets, range, o, greater)),
        },
    }
}

fn outside_with(version: &str, range: &str, greater: bool, o: Options) -> (r: Result<bool>)
    ensures
        outside_outcome(version@, range@, greater, o, r),
{
    let v = SemVer::parse_with(version, o);
    proof {
        lemma_parse_outcome_ok(version@, o, v);
    }
    let v = match v {
        Ok(v) => v,
        Err(e) => {
            return Err(e);
        },
    };
    let r = Range::parse(range, o)?;
    if r.test(&v) {
        return Ok(false);
    }
    if v.is_prerelease() && !o.include_prerelease {
        let permissive = o.with_include_prerelease(true);
        match Range::parse(range, permissive) {
            Ok(r2) => {
                if r2.test(&v) {
                    return Ok(false);
                }
            },
            Err(_) => {},
        }
    }
    let ghost sets = r@;
    assert(!only_prerelease_excluded(v@, range@, o));
    let mut i: usize = 0;
    while i < r.set.len()
        invariant
            i <= r.set@.len(),
            sets == sets_view(r.set@),
            parsed(version@, o) == Some(v@),
            range_parse(range@, o) == Ok::<Seq<Seq<CompView>>, RangeErr>(sets),
            !range_test(sets, v@, o),
            !only_prerelease_excluded(v@, range@, o),
            forall|k: int| 0 <= k < i ==> beyond(v@, bounds(#[trigger] sets[k]), greater),
        decreases r.set@.len() - i,
    {
        assert(sets[i as int] == comps_view(r.set@[i as int].0@));
        let (lo, hi) = set_bounds(&r.set[i].0);
        assert(!beyond(v@, bounds(sets[i as int]), greater) ==> !outside_spec(
            v@,
            sets,
            range@,
            o,
            greater,
        ));
        if greater {
            match &hi {
                Some((h, _)) => {
                    if v.order(h) <= 0 {
                        return Ok(false);
                    }
                },
                None => {
                    return Ok(false);
                },
            }
        } else {
            match &lo {
                Some((l, _)) => {
                    if v.order(l) >= 0 {
                        return Ok(false);
                    }
                },
                None => {
                    return Ok(false);
                },
            }
        }
        i = i + 1;
    }
    Ok(true)
}

/// Whether a version falls outside a range on the side `hilo` names:
/// `>` for above, anything else for below.
pub fn outside<O: IntoOptions>(version: &str, range: &str, hilo: &str, options: O) -> (r: Result<
    bool,
>)
    ensures
        outside_outcome(version@, range@, hilo@ == seq!['>'], options.as_options(), r),
{
    let h = chars_of(hilo);
    let greater = h.len() == 1 && h[0] == '>';
    assert(greater == (h@ == seq!['>'])) by {
        if h@.len() == 1 && h@[0] == '>' {
            assert(h@ =~= seq!['>']);
        }
    }
    outside_with(version, range, greater, options.into_options())
}

/// Whether a version is greater than every version in a range.
pub fn gtr<O: IntoOptions>(version: &str, range: &str, options: O) -> (r: Result<bool>)
    ensures
        outside_outcome(version@, range@, true, options.as_options(), r),
{
    outside_with(version, range, true, options.into_options())
}

/// Whether a version is less than every version in a range.
pub fn ltr<O: IntoOptions>(version: &str, range: &str, options: O) -> (r: Result<bool>)
    ensures
        outside_outcome(version@, range@, false, options.as_options(), r),
{
    outside_with(version, range, false, options.into_options())
}

/// A set whose lower bound is not above its upper bound (or that lacks
/// one of them).
pub open spec fn uncrossed(b: (BoundView, BoundView)) -> bool {
    match (b.0, b.1) {
        (Some((l, _)), Some((h, _))) => ver_order(l, h) <= 0,
        _ => true,
    }
}

/// A version is never both above and below a range that has a set
/// whose lower bound is not above its upper bound.
pub proof fn lemma_not_above_and_below(
    v: VersionView,
    sets: Seq<Seq<CompView>>,
    range: Seq<char>,
    o: Options,
    k: int,
)
    requires
        0 <= k < sets.len(),
        uncrossed(bounds(sets[k])),
    ensures
        !(outside_spec(v, sets, range, o, true) && outside_spec(v, sets, range, o, false)),
{
    if outside_spec(v, sets, range, o, true) && outside_spec(v, sets, range, o, false) {
        let b = bounds(sets[k]);
        assert(beyond(v, b, true) && beyond(v, b, false));
        let l = b.0->Some_0.0;
        let h = b.1->Some_0.0;
        lemma_ver_order_antisym(v, l);
        lemma_ver_order_trans(v, l, h);
    }
}

/// A version `gtr` finds above a range ranks above every version the
/// range admits, and one `ltr` finds below ranks below every such
/// version.
pub proof fn lemma_outside_beyond_all(
    v: VersionView,
    sets: Seq<Seq<CompView>>,
    range: Seq<char>,
    o: Options,
    greater: bool,
    w: VersionView,
)
    requires
        outside_spec(v, sets, range, o, greater),
        range_test(sets, w, o),
    ensures
        if greater {
            ver_order(v, w) > 0
        } else {
            ver_order(v, w) < 0
        },
{
    let k = choose|k: int| 0 <= k < sets.len() && set_test(#[trigger] sets[k], w, o);
    let cs = sets[k];
    lemma_within_bounds(cs, w);
    let b = bounds(cs);
    assert(beyond(v, b, greater));
    if greater {
        let (h, hi_inc) = b.1->Some_0;
        lemma_ver_order_antisym(w, h);
        lemma_ver_order_antisym(v, h);
        lemma_ver_order_antisym(v, w);
        lemma_le_lt(w, h, v);
    } else {
        let (l, lo_inc) = b.0->Some_0;
        lemma_ver_order_antisym(w, l);
        lemma_ver_order_antisym(v, l);
        lemma_lt_le(v, l, w);
    }
}

// ── listing ─────────────────────────────────────────────────────────────
/// A comparator as `to_comparators` lists it: empty for `*`.
pub open spec fn listed_text(c: CompView) -> Seq<char> {
    if c.ver is None {
        Seq::empty()
    } else {
        comp_text(c)
    }
}

/// A range as nested lists of comparator strings: the outer list is the
/// `||` alternatives, the inner one each alternative's comparators.
pub fn to_comparators<O: IntoOptions>(range: &str, options: O) -> (r: Result<Vec<Vec<String>>>)
    ensures
        match range_parse(range@, options.as_options()) {
            Err(k) => r is Err && range_error_is(r->Err_0, k),
            Ok(sets) => r is Ok && r->Ok_0@.len() == sets.len() && forall|i: int|
                0 <= i < sets.len() ==> (#[trigger] r->Ok_0@[i])@.len() == sets[i].len()
                    && forall|j: int|
                    0 <= j < sets[i].len() ==> (#[trigger] r->Ok_0@[i]@[j])@ == listed_text(
                        sets[i][j],
                    ),
        },
{
    let rg = Range::parse(range, options)?;
    let ghost sets = rg@;
    let mut out: Vec<Vec<String>> = Vec::new();
    let mut i: usize = 0;
    while i < rg.set.len()
        invariant
            i <= rg.set@.len(),
            sets == sets_view(rg.set@),
            out@.len() == i,
            forall|a: int|
                0 <= a < i ==> (#[trigger] out@[a])@.len() == sets[a].len() && forall|b: int|
                    0 <= b < sets[a].len() ==> (#[trigger] out@[a]@[b])@ == listed_text(sets[a][b]),
        decreases rg.set@.len() - i,
    {
        let set = &rg.set[i].0;
        let ghost cv = comps_view(set@);
        assert(sets[i as int] == cv);
        let mut row: Vec<String> = Vec::new();
        let mut j: usize = 0;
        while j < set.len()
            invariant
                j <= set@.len(),
                cv == comps_view(set@),
                row@.len() == j,
                forall|b: int| 0 <= b < j ==> (#[trigger] row@[b])@ == listed_text(cv[b]),
            decreases set@.len() - j,
        {
            assert(cv[j as int] == set@[j as int]@);
            let t = if set[j].version.is_none() {
                let e = String::new();
                assert(e@ =~= Seq::<char>::empty());
                e
            } else {
                set[j].to_string()
            };
            row.push(t);
            j = j + 1;
        }
        out.push(row);
        i = i + 1;
    }
    Ok(out)
}

// ── intersection ────────────────────────────────────────────────────────
/// Some version satisfies both ranges.
pub open spec fn ranges_meet(a: Seq<Seq<CompView>>, b: Seq<Seq<CompView>>, o: Options) -> bool {
    exists|v: VersionView| #[trigger] range_test(a, v, o) && range_test(b, v, o)
}

/// Whether some version satisfies both ranges; the error of the first
/// range that does not parse.
pub fn intersects<O: IntoOptions>(a: &str, b: &str, options: O) -> (r: Result<bool>)
    ensures
        match (range_parse(a@, options.as_options()), range_parse(b@, options.as_options())) {
            (Err(k), _) => r is Err && range_error_is(r->Err_0, k),
            (Ok(_), Err(k)) => r is Err && range_error_is(r->Err_0, k),
            (Ok(sa), Ok(sb)) => r == Ok::<bool, Error>(ranges_meet(sa, sb, options.as_options())),
        },
{
    let o = options.into_options();
    let ra = Range::parse(a, o)?;
    let rb = Range::parse(b, o)?;
    let ghost sa = ra@;
    let ghost sb = rb@;
    let mut cs: Vec<Comparator> = Vec::new();
    assert(comps_view(cs@) =~= Seq::<CompView>::empty());
    push_range_comps(&ra, &mut cs, o);
    push_range_comps(&rb, &mut cs, o);
    let ghost cv = comps_view(cs@);
    assert(cv =~= all_comps(sa) + all_comps(sb));
    proof {
        lemma_comps_well_formed(cs, o);
    }
    let reps = reps_of(&cs, o);
    let mut p: usize = 0;
    while p < reps.len()
        invariant
            p <= reps@.len(),
            sa == ra@,
            sb == rb@,
            o == options.as_options(),
            range_parse(a@, o) == Ok::<Seq<Seq<CompView>>, RangeErr>(sa),
            range_parse(b@, o) == Ok::<Seq<Seq<CompView>>, RangeErr>(sb),
            ra.opts() == o,
            rb.opts() == o,
            forall|q: int|
                0 <= q < p ==> !(range_test(sa, (#[trigger] reps@[q])@, o) && range_test(
                    sb,
                    reps@[q]@,
                    o,
                )),
        decreases reps@.len() - p,
    {
        if ra.test(&reps[p]) && rb.test(&reps[p]) {
            assert(ranges_meet(sa, sb, o));
            return Ok(true);
        }
        p = p + 1;
    }
    proof {
        if ranges_meet(sa, sb, o) {
            let v = choose|v: VersionView| #[trigger] range_test(sa, v, o) && range_test(sb, v, o);
            lemma_admitted_is_anchored(sa, cv, 0, v, o);
            let w = lemma_rep_stands_for(cv, v, o);
            lemma_same_range_verdict(sa, cv, 0, w, v, o);
            lemma_same_range_verdict(sb, cv, all_comps(sa).len() as int, w, v, o);
            assert(is_rep(comps_view(cs@), w));
            let q = choose|q: int| 0 <= q < reps@.len() && reps@[q]@ == w;
            assert(range_test(sa, reps@[q]@, o) && range_test(sb, reps@[q]@, o));
        }
    }
    Ok(false)
}
} // verus!
