//! Representative versions. As far as a list of comparators can tell,
//! every version behaves like one of a few versions built from the
//! comparators themselves: `0.0.0`, `0.0.0-0`, and for each comparator
//! version its release, its prerelease extended by `0`, its numbers with
//! the prerelease `0`, and the next patch as a release and with the
//! prerelease `0`. Questions about all versions (is there one in both
//! ranges, is there one in the first and not the second, which is the
//! lowest) are then answered by trying the representatives.
use crate::comparator::{comp_test, comp_well_formed, CompView, Comparator};
use crate::constants::{Options, MAX_SAFE_INTEGER};
use crate::identifiers::{id_order, lemma_list_order_antisym, list_order, IdentView, Identifier};
use crate::range::{comps_view, comps_wf, pre_anchor, range_test, set_test, sets_view, sets_wf, Range};
use crate::semver::{
    lemma_ver_order_antisym, lemma_ver_order_reflexive, lemma_ver_order_trans, main_order, ver_order,
    SemVer, VersionView,
};
use vstd::prelude::*;

verus! {

// ── the representatives ────────────────────────────────────────────────
/// `0.0.0`
pub open spec fn zero_version() -> VersionView {
    VersionView { major: 0, minor: 0, patch: 0, pre: Seq::empty(), build: Seq::empty() }
}

/// `0.0.0-0`, the lowest version there is.
pub open spec fn zero_pre_version() -> VersionView {
    VersionView { major: 0, minor: 0, patch: 0, pre: seq![IdentView::Num(0)], build: Seq::empty() }
}

/// The prerelease `0`, the lowest prerelease there is.
pub open spec fn zero_list() -> Seq<IdentView> {
    seq![IdentView::Num(0)]
}

/// The numbers of `x` with the prerelease `pre` and no build metadata.
pub open spec fn with_pre(x: VersionView, pre: Seq<IdentView>) -> VersionView {
    VersionView { major: x.major, minor: x.minor, patch: x.patch, pre, build: Seq::empty() }
}

/// The patch after `x`'s, with the prerelease `pre` and no build
/// metadata.
pub open spec fn next_patch(x: VersionView, pre: Seq<IdentView>) -> VersionView {
    VersionView { major: x.major, minor: x.minor, patch: (x.patch + 1) as u64, pre, build: Seq::empty() }
}

/// The `m`-th of the six representatives a comparator contributes
/// (`0.0.0` for the comparator that carries no version).
pub open spec fn rep_at(c: CompView, m: int) -> VersionView {
    match c.ver {
        None => zero_version(),
        Some(x) => if m == 0 {
            with_pre(x, x.pre)
        } else if m == 1 {
            with_pre(x, Seq::empty())
        } else if m == 2 {
            with_pre(x, x.pre.push(IdentView::Num(0)))
        } else if m == 3 {
            with_pre(x, zero_list())
        } else if m == 4 {
            next_patch(x, Seq::empty())
        } else {
            next_patch(x, zero_list())
        },
    }
}

/// Whether `w` is a representative for the comparators `cs`.
pub open spec fn is_rep(cs: Seq<CompView>, w: VersionView) -> bool {
    ||| w == zero_version()
    ||| w == zero_pre_version()
    ||| exists|k: int, m: int| 0 <= k < cs.len() && 0 <= m < 6 && w == #[trigger] rep_at(cs[k], m)
}

/// Whether `w` and `v` get the same verdict from every comparator of
/// `cs`, and (unless prereleases are admitted) are both releases, or
/// both prereleases of the same `major.minor.patch`.
pub open spec fn same_verdicts(cs: Seq<CompView>, w: VersionView, v: VersionView, o: Options) -> bool {
    &&& forall|k: int| 0 <= k < cs.len() ==> comp_test(#[trigger] cs[k], w) == comp_test(cs[k], v)
    &&& !o.include_prerelease ==> (w.pre.len() > 0 <==> v.pre.len() > 0)
    &&& (!o.include_prerelease && v.pre.len() > 0) ==> (w.major == v.major && w.minor == v.minor
        && w.patch == v.patch)
}

/// The comparators of a range, set after set.
pub open spec fn all_comps(sets: Seq<Seq<CompView>>) -> Seq<CompView>
    decreases sets.len(),
{
    if sets.len() == 0 {
        Seq::empty()
    } else {
        all_comps(sets.drop_last()) + sets.last()
    }
}

// ── order facts ─────────────────────────────────────────────────────────
/// Nothing ranks below `0.0.0-0`, and only `0.0.0-0` ranks equal to it.
pub proof fn lemma_zero_pre_lowest(t: VersionView)
    ensures
        ver_order(zero_pre_version(), t) <= 0,
        ver_order(zero_pre_version(), t) == 0 ==> t.major == 0 && t.minor == 0 && t.patch == 0
            && t.pre == zero_list(),
{
    let z = zero_pre_version();
    if main_order(z, t) == 0 && t.pre.len() > 0 {
        lemma_zero_list_lowest(t.pre);
        lemma_ver_order_antisym(z, t);
    }
}

/// The prerelease `0` ranks at or below every other prerelease.
proof fn lemma_zero_list_lowest(b: Seq<IdentView>)
    requires
        b.len() > 0,
    ensures
        list_order(zero_list(), b) <= 0,
{
    reveal_with_fuel(list_order, 2);
    let z = zero_list();
    assert(z[0] == IdentView::Num(0));
    assert(z.drop_first().len() == 0);
}

/// A list ranks below itself extended by one identifier.
proof fn lemma_list_below_push(a: Seq<IdentView>, e: IdentView)
    ensures
        list_order(a, a.push(e)) < 0,
    decreases a.len(),
{
    if a.len() > 0 {
        assert(a.push(e)[0] == a[0]);
        assert(a.push(e).drop_first() =~= a.drop_first().push(e));
        lemma_list_order_antisym(seq![a[0]], seq![a[0]]);
        lemma_list_below_push(a.drop_first(), e);
    }
}

/// Extending a list by `0` keeps it at or below any list it ranked
/// below.
proof fn lemma_list_push_zero(a: Seq<IdentView>, b: Seq<IdentView>)
    requires
        list_order(a, b) < 0,
    ensures
        list_order(a.push(IdentView::Num(0)), b) <= 0,
    decreases a.len(),
{
    let z = IdentView::Num(0);
    if a.len() == 0 {
        assert(a.push(z) =~= zero_list());
        lemma_zero_list_lowest(b);
    } else {
        assert(b.len() > 0);
        assert(a.push(z)[0] == a[0]);
        assert(a.push(z).drop_first() =~= a.drop_first().push(z));
        if id_order(a[0], b[0]) == 0 {
            lemma_list_push_zero(a.drop_first(), b.drop_first());
        }
    }
}

/// Ranks equal to `a` and to `b` agree against any third version.
proof fn lemma_same_rank(a: VersionView, b: VersionView, y: VersionView)
    requires
        ver_order(a, b) == 0,
    ensures
        ver_order(a, y) == ver_order(b, y),
        a.major == b.major && a.minor == b.minor && a.patch == b.patch && a.pre == b.pre,
{
    lemma_ver_order_antisym(a, b);
}

/// `a <= b < c` gives `a < c`.
proof fn lemma_le_lt(a: VersionView, b: VersionView, c: VersionView)
    requires
        ver_order(a, b) <= 0,
        ver_order(b, c) < 0,
    ensures
        ver_order(a, c) < 0,
{
    lemma_ver_order_trans(a, b, c);
    if ver_order(a, c) == 0 {
        lemma_same_rank(a, c, b);
        lemma_ver_order_antisym(b, c);
    }
}

/// A version strictly between `x` and `v` (or equal to `v`), where no
/// comparator version lies above `x` and at or below `v`, gets the same
/// verdict as `v` from the comparator.
proof fn lemma_gap_verdict(c: CompView, x: VersionView, w: VersionView, v: VersionView)
    requires
        ver_order(x, w) < 0,
        ver_order(w, v) <= 0,
        c.ver matches Some(y) ==> (ver_order(y, v) <= 0 ==> ver_order(y, x) <= 0),
    ensures
        comp_test(c, w) == comp_test(c, v),
{
    if let Some(y) = c.ver {
        lemma_ver_order_antisym(y, v);
        lemma_ver_order_antisym(w, y);
        lemma_ver_order_antisym(v, y);
        if ver_order(y, v) <= 0 {
            lemma_le_lt(y, x, w);
            lemma_ver_order_trans(y, w, v);
            if ver_order(y, v) == 0 {
                lemma_same_rank(y, v, w);
                lemma_ver_order_antisym(w, v);
            }
        } else {
            lemma_le_lt(w, v, y);
        }
    }
}

/// A version at or below `v`, where every comparator version lies above
/// `v`, gets the same verdict as `v`.
proof fn lemma_floor_verdict(c: CompView, w: VersionView, v: VersionView)
    requires
        ver_order(w, v) <= 0,
        c.ver matches Some(y) ==> ver_order(y, v) > 0,
    ensures
        comp_test(c, w) == comp_test(c, v),
{
    if let Some(y) = c.ver {
        lemma_ver_order_antisym(y, v);
        lemma_ver_order_antisym(w, y);
        lemma_ver_order_antisym(v, y);
        lemma_le_lt(w, v, y);
    }
}

// ── the highest comparator version at or below a version ───────────────
/// The index of a comparator whose version is the highest among those at
/// or below `v`, or `-1` when every comparator version lies above `v`.
proof fn lemma_highest_below(cs: Seq<CompView>, v: VersionView) -> (b: int)
    ensures
        -1 <= b < cs.len(),
        b == -1 ==> forall|k: int|
            0 <= k < cs.len() ==> ((#[trigger] cs[k]).ver matches Some(y) ==> ver_order(y, v) > 0),
        b >= 0 ==> cs[b].ver is Some && ver_order(cs[b].ver->Some_0, v) <= 0 && forall|k: int|
            0 <= k < cs.len() ==> ((#[trigger] cs[k]).ver matches Some(y) ==> (ver_order(y, v) <= 0
                ==> ver_order(y, cs[b].ver->Some_0) <= 0)),
    decreases cs.len(),
{
    if cs.len() == 0 {
        return -1;
    }
    let n = cs.len() - 1;
    let d = cs.drop_last();
    let p = lemma_highest_below(d, v);
    assert forall|k: int| 0 <= k < n implies #[trigger] cs[k] == d[k] by {}
    match cs[n].ver {
        Some(x) => {
            if ver_order(x, v) <= 0 {
                if p == -1 {
                    assert forall|k: int| 0 <= k < cs.len() implies ((#[trigger] cs[k]).ver matches Some(
                        y,
                    ) ==> (ver_order(y, v) <= 0 ==> ver_order(y, x) <= 0)) by {
                        if k < n {
                            assert(cs[k] == d[k]);
                        } else {
                            lemma_ver_order_reflexive(x);
                        }
                    }
                    return n;
                }
                let y0 = d[p].ver->Some_0;
                assert(cs[p] == d[p]);
                lemma_ver_order_antisym(x, y0);
                if ver_order(x, y0) > 0 {
                    assert forall|k: int| 0 <= k < cs.len() implies ((#[trigger] cs[k]).ver matches Some(
                        y,
                    ) ==> (ver_order(y, v) <= 0 ==> ver_order(y, x) <= 0)) by {
                        if k < n {
                            assert(cs[k] == d[k]);
                            if let Some(y) = cs[k].ver {
                                if ver_order(y, v) <= 0 {
                                    lemma_ver_order_trans(y, y0, x);
                                }
                            }
                        } else {
                            lemma_ver_order_reflexive(x);
                        }
                    }
                    return n;
                }
                assert forall|k: int| 0 <= k < cs.len() implies ((#[trigger] cs[k]).ver matches Some(
                    y,
                ) ==> (ver_order(y, v) <= 0 ==> ver_order(y, y0) <= 0)) by {
                    if k < n {
                        assert(cs[k] == d[k]);
                    }
                }
                p
            } else {
                assert forall|k: int| 0 <= k < cs.len() implies ((#[trigger] cs[k]).ver matches Some(
                    y,
                ) ==> (ver_order(y, v) <= 0 ==> (p >= 0 && ver_order(y, d[p].ver->Some_0) <= 0))) by {
                    if k < n {
                        assert(cs[k] == d[k]);
                    }
                }
                if p >= 0 {
                    assert(cs[p] == d[p]);
                }
                p
            }
        },
        None => {
            assert forall|k: int| 0 <= k < cs.len() implies ((#[trigger] cs[k]).ver matches Some(y) ==> (
            ver_order(y, v) <= 0 ==> (p >= 0 && ver_order(y, d[p].ver->Some_0) <= 0))) by {
                if k < n {
                    assert(cs[k] == d[k]);
                }
            }
            if p >= 0 {
                assert(cs[p] == d[p]);
            }
            p
        },
    }
}

// ── the step above a comparator version ─────────────────────────────────
/// Above a prerelease `x` and at or below any `v` above it: `x` extended
/// by `0`.
proof fn lemma_step_pre(x: VersionView, v: VersionView)
    requires
        x.pre.len() > 0,
        ver_order(x, v) < 0,
    ensures
        ver_order(x, with_pre(x, x.pre.push(IdentView::Num(0)))) < 0,
        ver_order(with_pre(x, x.pre.push(IdentView::Num(0))), v) <= 0,
{
    let w = with_pre(x, x.pre.push(IdentView::Num(0)));
    lemma_list_below_push(x.pre, IdentView::Num(0));
    if main_order(x, v) == 0 && v.pre.len() > 0 {
        lemma_list_push_zero(x.pre, v.pre);
    }
}

/// Above a prerelease `x` and at or below any release above it: `x`'s
/// release.
proof fn lemma_step_pre_to_release(x: VersionView, v: VersionView)
    requires
        x.pre.len() > 0,
        v.pre.len() == 0,
        ver_order(x, v) < 0,
    ensures
        ver_order(x, with_pre(x, Seq::empty())) < 0,
        ver_order(with_pre(x, Seq::empty()), v) <= 0,
{
}

/// Above a release `x` and at or below any `v` above it: the next patch,
/// as a release when `v` is one, or with the prerelease `0`.
proof fn lemma_step_release(x: VersionView, v: VersionView)
    requires
        x.pre.len() == 0,
        x.patch < u64::MAX,
        ver_order(x, v) < 0,
    ensures
        main_order(x, v) < 0,
        ver_order(x, next_patch(x, zero_list())) < 0,
        ver_order(next_patch(x, zero_list()), v) <= 0,
        v.pre.len() == 0 ==> ver_order(x, next_patch(x, Seq::empty())) < 0,
        v.pre.len() == 0 ==> ver_order(next_patch(x, Seq::empty()), v) <= 0,
{
    let n = next_patch(x, zero_list());
    if main_order(n, v) == 0 && v.pre.len() > 0 {
        lemma_zero_list_lowest(v.pre);
    }
}

// ── every version has a representative ────────────────────────────────
/// For every version `v` that a range over `cs` could admit (a release,
/// or a prerelease some comparator anchors, or anything when prereleases
/// are admitted), some representative ranks at or below `v` and gets the
/// same verdicts as `v`.
pub proof fn lemma_rep_stands_for(cs: Seq<CompView>, v: VersionView, o: Options) -> (w: VersionView)
    requires
        forall|k: int| 0 <= k < cs.len() ==> comp_well_formed(#[trigger] cs[k]),
        (v.pre.len() > 0 && !o.include_prerelease) ==> exists|k: int|
            0 <= k < cs.len() && pre_anchor(#[trigger] cs[k], v),
    ensures
        is_rep(cs, w),
        ver_order(w, v) <= 0,
        same_verdicts(cs, w, v, o),
{
    let b = lemma_highest_below(cs, v);
    let ip = o.include_prerelease;
    if b >= 0 {
        let c = cs[b];
        let x = c.ver->Some_0;
        assert(comp_well_formed(c));
        assert(x.patch < u64::MAX);
        if ver_order(x, v) == 0 {
            let w = rep_at(c, 0);
            lemma_same_rank(x, v, x);
            assert forall|k: int| 0 <= k < cs.len() implies comp_test(#[trigger] cs[k], w)
                == comp_test(cs[k], v) by {
                if let Some(y) = cs[k].ver {
                    lemma_same_rank(x, v, y);
                }
            }
            lemma_ver_order_reflexive(v);
            return w;
        }
        // `x` lies strictly below `v`; find a representative in between.
        let w = if ip {
            if x.pre.len() > 0 {
                lemma_step_pre(x, v);
                rep_at(c, 2)
            } else {
                lemma_step_release(x, v);
                rep_at(c, 5)
            }
        } else if v.pre.len() == 0 {
            if x.pre.len() > 0 {
                lemma_step_pre_to_release(x, v);
                rep_at(c, 1)
            } else {
                lemma_step_release(x, v);
                rep_at(c, 4)
            }
        } else if x.major == v.major && x.minor == v.minor && x.patch == v.patch {
            lemma_step_pre(x, v);
            rep_at(c, 2)
        } else {
            let k = choose|k: int| 0 <= k < cs.len() && pre_anchor(#[trigger] cs[k], v);
            let z = cs[k].ver->Some_0;
            lemma_zero_list_lowest(v.pre);
            assert(rep_at(cs[k], 3) == with_pre(z, zero_list()));
            rep_at(cs[k], 3)
        };
        assert(ver_order(x, w) < 0 && ver_order(w, v) <= 0);
        assert forall|k: int| 0 <= k < cs.len() implies comp_test(#[trigger] cs[k], w) == comp_test(
            cs[k],
            v,
        ) by {
            lemma_gap_verdict(cs[k], x, w, v);
        }
        w
    } else {
        let w = if ip {
            lemma_zero_pre_lowest(v);
            zero_pre_version()
        } else if v.pre.len() == 0 {
            zero_version()
        } else {
            let k = choose|k: int| 0 <= k < cs.len() && pre_anchor(#[trigger] cs[k], v);
            lemma_zero_list_lowest(v.pre);
            assert(rep_at(cs[k], 3) == with_pre(cs[k].ver->Some_0, zero_list()));
            rep_at(cs[k], 3)
        };
        assert(ver_order(w, v) <= 0);
        assert forall|k: int| 0 <= k < cs.len() implies comp_test(#[trigger] cs[k], w) == comp_test(
            cs[k],
            v,
        ) by {
            lemma_floor_verdict(cs[k], w, v);
        }
        w
    }
}

// ── from comparators to ranges ─────────────────────────────────────────
/// Each comparator of a range appears among its comparators set after
/// set.
pub proof fn lemma_all_comps_has(sets: Seq<Seq<CompView>>, i: int, j: int) -> (k: int)
    requires
        0 <= i < sets.len(),
        0 <= j < sets[i].len(),
    ensures
        0 <= k < all_comps(sets).len(),
        all_comps(sets)[k] == sets[i][j],
    decreases sets.len(),
{
    let d = all_comps(sets.drop_last());
    if i == sets.len() - 1 {
        d.len() + j
    } else {
        assert(sets.drop_last()[i] == sets[i]);
        lemma_all_comps_has(sets.drop_last(), i, j)
    }
}

/// Two versions with the same verdicts from every comparator of a range
/// (found at offset `off` in `cs`) get the same answer from the range.
pub proof fn lemma_same_range_verdict(
    sets: Seq<Seq<CompView>>,
    cs: Seq<CompView>,
    off: int,
    w: VersionView,
    v: VersionView,
    o: Options,
)
    requires
        same_verdicts(cs, w, v, o),
        0 <= off,
        off + all_comps(sets).len() <= cs.len(),
        forall|k: int| 0 <= k < all_comps(sets).len() ==> cs[off + k] == #[trigger] all_comps(sets)[k],
    ensures
        range_test(sets, w, o) == range_test(sets, v, o),
{
    assert forall|i: int| 0 <= i < sets.len() implies set_test(#[trigger] sets[i], w, o) == set_test(
        sets[i],
        v,
        o,
    ) by {
        let s = sets[i];
        assert forall|j: int| 0 <= j < s.len() implies comp_test(#[trigger] s[j], w) == comp_test(
            s[j],
            v,
        ) by {
            let k = lemma_all_comps_has(sets, i, j);
            assert(cs[off + k] == s[j]);
        }
        if !o.include_prerelease && v.pre.len() > 0 {
            assert forall|j: int| 0 <= j < s.len() implies pre_anchor(#[trigger] s[j], w) == pre_anchor(
                s[j],
                v,
            ) by {}
        }
    }
    if range_test(sets, w, o) {
        let i = choose|i: int| 0 <= i < sets.len() && set_test(#[trigger] sets[i], w, o);
        assert(set_test(sets[i], v, o));
    }
    if range_test(sets, v, o) {
        let i = choose|i: int| 0 <= i < sets.len() && set_test(#[trigger] sets[i], v, o);
        assert(set_test(sets[i], w, o));
    }
}

/// A version a range admits is, unless prereleases are admitted, a
/// release or a prerelease one of the range's comparators anchors.
pub proof fn lemma_admitted_is_anchored(sets: Seq<Seq<CompView>>, cs: Seq<CompView>, off: int, v: VersionView, o: Options)
    requires
        range_test(sets, v, o),
        0 <= off,
        off + all_comps(sets).len() <= cs.len(),
        forall|k: int| 0 <= k < all_comps(sets).len() ==> cs[off + k] == #[trigger] all_comps(sets)[k],
    ensures
        (v.pre.len() > 0 && !o.include_prerelease) ==> exists|k: int|
            0 <= k < cs.len() && pre_anchor(#[trigger] cs[k], v),
{
    if v.pre.len() > 0 && !o.include_prerelease {
        let i = choose|i: int| 0 <= i < sets.len() && set_test(#[trigger] sets[i], v, o);
        let s = sets[i];
        let j = choose|j: int| 0 <= j < s.len() && pre_anchor(#[trigger] s[j], v);
        let k = lemma_all_comps_has(sets, i, j);
        assert(cs[off + k] == s[j]);
        assert(pre_anchor(cs[off + k], v));
    }
}

// ── listing the representatives ─────────────────────────────────────────
/// Append copies of the comparators of `src`.
pub(crate) fn push_copies(dst: &mut Vec<Comparator>, src: &Vec<Comparator>, o: Options)
    requires
        comps_wf(old(dst)@, o),
        comps_wf(src@, o),
    ensures
        comps_view(final(dst)@) == comps_view(old(dst)@) + comps_view(src@),
        comps_wf(final(dst)@, o),
{
    let ghost start = comps_view(dst@);
    let mut i: usize = 0;
    while i < src.len()
        invariant
            i <= src@.len(),
            comps_view(dst@) == start + comps_view(src@).take(i as int),
            comps_wf(dst@, o),
            comps_wf(src@, o),
        decreases src@.len() - i,
    {
        let ghost before = comps_view(dst@);
        let c = src[i].copy();
        dst.push(c);
        assert(comps_view(dst@) =~= before.push(src@[i as int]@));
        assert(comps_view(src@).take(i + 1) =~= comps_view(src@).take(i as int).push(
            src@[i as int]@,
        ));
        i = i + 1;
    }
    assert(comps_view(src@).take(src@.len() as int) =~= comps_view(src@));
}

/// Append copies of every comparator of a range, set after set.
pub fn push_range_comps(r: &Range, dst: &mut Vec<Comparator>, o: Options)
    requires
        comps_wf(old(dst)@, o),
        sets_wf(r.set@, o),
    ensures
        comps_view(final(dst)@) == comps_view(old(dst)@) + all_comps(r@),
        comps_wf(final(dst)@, o),
{
    let ghost start = comps_view(dst@);
    let ghost sets = r@;
    let mut i: usize = 0;
    assert(sets.take(0) =~= Seq::<Seq<CompView>>::empty());
    assert(start + all_comps(sets.take(0)) =~= start);
    while i < r.set.len()
        invariant
            i <= r.set@.len(),
            sets == r@,
            sets == sets_view(r.set@),
            sets_wf(r.set@, o),
            comps_view(dst@) == start + all_comps(sets.take(i as int)),
            comps_wf(dst@, o),
        decreases r.set@.len() - i,
    {
        assert(comps_wf(r.set@[i as int].0@, o));
        let ghost before = comps_view(dst@);
        push_copies(dst, &r.set[i].0, o);
        assert(sets.take(i + 1).drop_last() =~= sets.take(i as int));
        assert(sets.take(i + 1).last() == comps_view(r.set@[i as int].0@));
        assert(comps_view(dst@) =~= start + all_comps(sets.take(i + 1)));
        i = i + 1;
    }
    assert(sets.take(r.set@.len() as int) =~= sets);
}

/// A version with the given numbers and prerelease, no build metadata,
/// and the options `o`.
fn make_version(major: u64, minor: u64, patch: u64, pre: Vec<Identifier>, o: Options) -> (r: SemVer)
    ensures
        r@ == (VersionView { major, minor, patch, pre: crate::identifiers::ids_view(pre@), build: Seq::empty() }),
        r.options == o,
{
    let v = SemVer { major, minor, patch, prerelease: pre, build: Vec::new(), options: o };
    assert(v@.build =~= Seq::<Seq<char>>::empty());
    v
}

/// The prerelease `0`.
fn zero_ids() -> (r: Vec<Identifier>)
    ensures
        crate::identifiers::ids_view(r@) == zero_list(),
{
    let mut p: Vec<Identifier> = Vec::new();
    p.push(Identifier::Numeric(0));
    assert(crate::identifiers::ids_view(p@) =~= zero_list());
    p
}

/// The prerelease of `x`, and the same extended by `0`.
fn pre_copies(x: &SemVer) -> (r: (Vec<Identifier>, Vec<Identifier>))
    ensures
        crate::identifiers::ids_view(r.0@) == x@.pre,
        crate::identifiers::ids_view(r.1@) == x@.pre.push(IdentView::Num(0)),
{
    let a = x.copy().prerelease;
    let mut b = x.copy().prerelease;
    let ghost before = crate::identifiers::ids_view(b@);
    b.push(Identifier::Numeric(0));
    assert(crate::identifiers::ids_view(b@) =~= before.push(IdentView::Num(0)));
    (a, b)
}

/// Push the six representatives of one comparator.
fn push_reps_of(c: &Comparator, out: &mut Vec<SemVer>, o: Options)
    requires
        comp_well_formed(c@),
    ensures
        final(out)@.len() == old(out)@.len() + 6,
        forall|p: int| 0 <= p < old(out)@.len() ==> #[trigger] final(out)@[p] == old(out)@[p],
        forall|m: int| 0 <= m < 6 ==> (#[trigger] final(out)@[old(out)@.len() + m])@ == rep_at(c@, m)
            && final(out)@[old(out)@.len() + m].options == o,
{
    let ghost n = out@.len();
    match &c.version {
        None => {
            let mut m: usize = 0;
            while m < 6
                invariant
                    m <= 6,
                    c@.ver is None,
                    out@.len() == n + m,
                    forall|p: int| 0 <= p < n ==> #[trigger] out@[p] == old(out)@[p],
                    forall|q: int| 0 <= q < m ==> (#[trigger] out@[n + q])@ == rep_at(c@, q)
                        && out@[n + q].options == o,
                decreases 6 - m,
            {
                out.push(make_version(0, 0, 0, Vec::new(), o));
                proof {
                    assert(crate::identifiers::ids_view(Seq::<Identifier>::empty()) =~= Seq::<IdentView>::empty());
                }
                m = m + 1;
            }
        },
        Some(x) => {
            assert(x.patch <= MAX_SAFE_INTEGER);
            let (p0, p2) = pre_copies(x);
            out.push(make_version(x.major, x.minor, x.patch, p0, o));
            out.push(make_version(x.major, x.minor, x.patch, Vec::new(), o));
            out.push(make_version(x.major, x.minor, x.patch, p2, o));
            out.push(make_version(x.major, x.minor, x.patch, zero_ids(), o));
            out.push(make_version(x.major, x.minor, x.patch + 1, Vec::new(), o));
            out.push(make_version(x.major, x.minor, x.patch + 1, zero_ids(), o));
            proof {
                assert(crate::identifiers::ids_view(Seq::<Identifier>::empty()) =~= Seq::<IdentView>::empty());
                assert forall|m: int| 0 <= m < 6 implies (#[trigger] out@[n + m])@ == rep_at(c@, m)
                    && out@[n + m].options == o by {}
            }
        },
    }
}

/// The representatives of the comparators `cs`: `0.0.0`, `0.0.0-0`, then
/// six for each comparator.
pub fn reps_of(cs: &Vec<Comparator>, o: Options) -> (out: Vec<SemVer>)
    requires
        comps_wf(cs@, o),
    ensures
        forall|w: VersionView| #[trigger] is_rep(comps_view(cs@), w) ==> exists|p: int|
            0 <= p < out@.len() && out@[p]@ == w,
        forall|p: int| 0 <= p < out@.len() ==> (#[trigger] out@[p]).options == o && out@[p]@.build.len() == 0,
{
    let ghost cv = comps_view(cs@);
    let mut out: Vec<SemVer> = Vec::new();
    out.push(make_version(0, 0, 0, Vec::new(), o));
    out.push(make_version(0, 0, 0, zero_ids(), o));
    assert(crate::identifiers::ids_view(Seq::<Identifier>::empty()) =~= Seq::<IdentView>::empty());
    assert(out@[0]@ == zero_version());
    assert(out@[1]@ == zero_pre_version());
    let mut i: usize = 0;
    while i < cs.len()
        invariant
            i <= cs@.len(),
            cv == comps_view(cs@),
            comps_wf(cs@, o),
            out@.len() == 2 + 6 * i,
            out@[0]@ == zero_version(),
            out@[1]@ == zero_pre_version(),
            forall|p: int| 0 <= p < out@.len() ==> (#[trigger] out@[p]).options == o && out@[p]@.build.len() == 0,
            forall|k: int, m: int|
                0 <= k < i && 0 <= m < 6 ==> out@[2 + 6 * k + m]@ == #[trigger] rep_at(cv[k], m),
        decreases cs@.len() - i,
    {
        assert(comp_well_formed(cs@[i as int]@));
        assert(cv[i as int] == cs@[i as int]@);
        let ghost before = out@;
        push_reps_of(&cs[i], &mut out, o);
        assert forall|k: int, m: int|
            0 <= k < i + 1 && 0 <= m < 6 implies out@[2 + 6 * k + m]@ == #[trigger] rep_at(cv[k], m) by {
            if k < i {
                assert(out@[2 + 6 * k + m] == before[2 + 6 * k + m]);
            } else {
                assert(out@[before.len() + m]@ == rep_at(cs@[i as int]@, m));
            }
        }
        assert forall|p: int| 0 <= p < out@.len() implies (#[trigger] out@[p]).options == o && out@[p]@.build.len() == 0 by {
            if p < before.len() {
                assert(out@[p] == before[p]);
            } else {
                let m = p - before.len();
                assert(out@[before.len() + m]@ == rep_at(cs@[i as int]@, m));
            }
        }
        i = i + 1;
    }
    assert forall|w: VersionView| #[trigger] is_rep(cv, w) implies exists|p: int|
        0 <= p < out@.len() && out@[p]@ == w by {
        if w == zero_version() {
            assert(out@[0]@ == w);
        } else if w == zero_pre_version() {
            assert(out@[1]@ == w);
        } else {
            let (k, m) = choose|k: int, m: int| 0 <= k < cv.len() && 0 <= m < 6 && w == #[trigger] rep_at(cv[k], m);
            assert(out@[2 + 6 * k + m]@ == w);
        }
    }
    out
}

} // verus!
