//! The canonical form of a version reads back as the same version.
use crate::constants::Options;
use crate::identifiers::{ident_of, ident_text, IdentView};
use crate::semver::{
    dash_pre, eqv_lead, finish, ident_list, join_ids, lemma_build_ignored, main_text, parse_spec, parsed,
    pre_ident_ok, render, scan_tail, scan_version, too_long, ver_order, version_body, well_formed,
    num_ok, VersionView, build_part, id_well_formed, lemma_parsed_well_formed,
};
use crate::text::{
    all_digits, dec_value, digit_of, digit_run_end, digit_value, has_leading_zero, ident_run_end,
    is_digit, is_ident_char, is_ws, num_text, trim, ws_lead, ws_trail,
};
use vstd::prelude::*;

verus! {

proof fn lemma_digit_of(d: nat)
    requires
        d < 10,
    ensures
        is_digit(digit_of(d)),
        digit_value(digit_of(d)) == d,
        d >= 1 ==> digit_of(d) != '0',
{
}

/// The decimal rendering of a number: digits, at least one, no leading
/// zero, reading back as the number.
pub proof fn lemma_num_text(n: nat)
    ensures
        num_text(n).len() >= 1,
        all_digits(num_text(n)),
        dec_value(num_text(n)) == n,
        !has_leading_zero(num_text(n)),
        n >= 1 ==> num_text(n)[0] != '0',
    decreases n,
{
    if n < 10 {
        lemma_digit_of(n);
        let t = num_text(n);
        assert(t == seq![digit_of(n)]);
        assert(t.drop_last() =~= Seq::<char>::empty());
        assert(dec_value(Seq::<char>::empty()) == 0);
        assert(t.last() == digit_of(n));
        assert(dec_value(t) == dec_value(t.drop_last()) * 10 + digit_value(t.last()));
    } else {
        lemma_num_text(n / 10);
        lemma_digit_of(n % 10);
        let t = num_text(n);
        let h = num_text(n / 10);
        assert(t == h.push(digit_of(n % 10)));
        assert(t.drop_last() =~= h);
        assert(t.last() == digit_of(n % 10));
        assert(dec_value(t) == dec_value(h) * 10 + digit_value(digit_of(n % 10)));
        assert forall|k: int| 0 <= k < t.len() implies #[trigger] is_digit(t[k]) by {
            if k < h.len() {
                assert(t[k] == h[k]);
            }
        }
        vstd::arithmetic::div_mod::lemma_fundamental_div_mod(n as int, 10);
        assert(t[0] == h[0]);
    }
}

/// The digit run from `i` ends at `k` when everything before `k` is a
/// digit and what is at `k` is not.
pub proof fn lemma_digit_run_end_at(s: Seq<char>, i: int, k: int)
    requires
        0 <= i <= k <= s.len(),
        forall|m: int| i <= m < k ==> #[trigger] is_digit(s[m]),
        k == s.len() || !is_digit(s[k]),
    ensures
        digit_run_end(s, i) == k,
    decreases k - i,
{
    if i < k {
        lemma_digit_run_end_at(s, i + 1, k);
    }
}

/// The identifier run from `i` ends at `k` under the same conditions.
pub proof fn lemma_ident_run_end_at(s: Seq<char>, i: int, k: int)
    requires
        0 <= i <= k <= s.len(),
        forall|m: int| i <= m < k ==> #[trigger] is_ident_char(s[m]),
        k == s.len() || !is_ident_char(s[k]),
    ensures
        ident_run_end(s, i) == k,
    decreases k - i,
{
    if i < k {
        lemma_ident_run_end_at(s, i + 1, k);
    }
}

/// Joining identifiers, read from the front.
pub proof fn lemma_join_ids_cons(x: IdentView, rest: Seq<IdentView>)
    ensures
        join_ids(seq![x] + rest) == (if rest.len() == 0 {
            ident_text(x)
        } else {
            ident_text(x) + seq!['.'] + join_ids(rest)
        }),
    decreases rest.len(),
{
    let all = seq![x] + rest;
    assert(seq![x].len() == 1 && seq![x][0] == x);
    assert(join_ids(seq![x]) == ident_text(x));
    if rest.len() == 0 {
        assert(all =~= seq![x]);
    } else if rest.len() == 1 {
        assert(all.drop_last() =~= seq![x]);
        assert(all.last() == rest[0]);
        assert(join_ids(rest) == ident_text(rest[0]));
        assert(join_ids(all) == join_ids(all.drop_last()).push('.') + ident_text(all.last()));
        assert(join_ids(all) =~= ident_text(x) + seq!['.'] + join_ids(rest));
    } else {
        lemma_join_ids_cons(x, rest.drop_last());
        assert(all.drop_last() =~= seq![x] + rest.drop_last());
        assert(all.last() == rest.last());
        assert(join_ids(all) == join_ids(all.drop_last()).push('.') + ident_text(all.last()));
        assert(join_ids(rest) == join_ids(rest.drop_last()).push('.') + ident_text(rest.last()));
        assert(join_ids(all) =~= ident_text(x) + seq!['.'] + join_ids(rest));
    }
}

/// A text identifier that is all digits with a leading zero: the loose
/// reading keeps one when its value is too large to be a number, and the
/// strict reading rejects it.
pub open spec fn zero_led_text(i: IdentView) -> bool {
    match i {
        IdentView::Alpha(t) => all_digits(t) && has_leading_zero(t),
        IdentView::Num(_) => false,
    }
}

/// No identifier is a zero-led text.
pub open spec fn strict_ids(ids: Seq<IdentView>) -> bool {
    forall|k: int| 0 <= k < ids.len() ==> !zero_led_text(#[trigger] ids[k])
}

/// A well-formed identifier's text: identifier characters, at least one,
/// accepted by the strict reading, and classified back as itself.
proof fn lemma_ident_text(x: IdentView)
    requires
        id_well_formed(x),
        !zero_led_text(x),
    ensures
        ident_text(x).len() >= 1,
        forall|k: int| 0 <= k < ident_text(x).len() ==> #[trigger] is_ident_char(ident_text(x)[k]),
        pre_ident_ok(ident_text(x), false),
        ident_of(ident_text(x)) == x,
{
    match x {
        IdentView::Num(n) => {
            lemma_num_text(n as nat);
            let t = num_text(n as nat);
            assert forall|k: int| 0 <= k < t.len() implies #[trigger] is_ident_char(t[k]) by {
                assert(is_digit(t[k]));
            }
        },
        IdentView::Alpha(t) => {},
    }
}

/// Reading identifiers, in either mode, from `i` where the text up to `e`
/// is their canonical join and `e` ends the text or holds neither an
/// identifier character nor a `.`, gives them back and stops at `e`.
proof fn lemma_ident_list_join(b: Seq<char>, i: int, e: int, ids: Seq<IdentView>, loose: bool)
    requires
        ids.len() >= 1,
        forall|k: int| 0 <= k < ids.len() ==> id_well_formed(#[trigger] ids[k]),
        strict_ids(ids),
        0 <= i <= e <= b.len(),
        b.subrange(i, e) == join_ids(ids),
        e == b.len() || (!is_ident_char(b[e]) && b[e] != '.'),
    ensures
        ident_list(b, i, loose) == Some((ids, e)),
    decreases ids.len(),
{
    let x = ids[0];
    let rest = ids.skip(1);
    assert(ids =~= seq![x] + rest);
    lemma_join_ids_cons(x, rest);
    let jt = join_ids(ids);
    assert(jt == join_ids(seq![x] + rest));
    let sub = b.subrange(i, e);
    assert(sub.len() == e - i);
    assert(id_well_formed(ids[0]));
    assert(!zero_led_text(ids[0]));
    lemma_ident_text(x);
    let t = ident_text(x);
    let j = i + t.len();
    assert(jt.len() >= t.len());
    assert(j <= e);
    assert forall|m: int| i <= m < j implies #[trigger] is_ident_char(b[m]) by {
        assert(b[m] == sub[m - i]);
        assert(sub[m - i] == jt[m - i]);
        assert(jt[m - i] == t[m - i]);
    }
    if rest.len() == 0 {
        assert(j == e);
        lemma_ident_run_end_at(b, i, j);
        assert(b.subrange(i, j) =~= t);
    } else {
        assert(b[j] == sub[t.len() as int]);
        assert(jt[t.len() as int] == '.');
        assert(b[j] == '.');
        lemma_ident_run_end_at(b, i, j);
        assert(b.subrange(i, j) =~= t);
        assert forall|k: int| 0 <= k < rest.len() implies id_well_formed(#[trigger] rest[k]) by {
            assert(rest[k] == ids[k + 1]);
        }
        assert forall|k: int| 0 <= k < rest.len() implies !zero_led_text(#[trigger] rest[k]) by {
            assert(rest[k] == ids[k + 1]);
        }
        let jr = join_ids(rest);
        assert(jt.len() == t.len() + 1 + jr.len());
        assert forall|k: int| 0 <= k < jr.len() implies #[trigger] b.subrange(j + 1, e)[k] == jr[k] by {
            assert(b.subrange(j + 1, e)[k] == b[j + 1 + k]);
            assert(b[j + 1 + k] == sub[t.len() + 1 + k]);
            assert(jt[t.len() + 1 + k] == jr[k]);
        }
        assert(b.subrange(j + 1, e) =~= jr);
        lemma_ident_list_join(b, j + 1, e, rest, loose);
    }
}

/// A build tag: one identifier of build metadata, with no `.` in it.
pub open spec fn build_tag(t: Seq<char>) -> bool {
    t.len() > 0 && forall|k: int| 0 <= k < t.len() ==> #[trigger] is_ident_char(t[k])
}

/// `+tag` when there is a tag, else nothing.
pub open spec fn build_suffix(t: Seq<char>) -> Seq<char> {
    if t.len() == 0 {
        Seq::empty()
    } else {
        seq!['+'] + t
    }
}

/// The canonical form of a well-formed version with no zero-led text
/// identifier, followed by an optional build tag, reads back, in either
/// mode, as the same version with that tag as its build metadata.
#[verifier::spinoff_prover]
#[verifier::rlimit(100)]
pub proof fn lemma_render_tagged_reparses(v: VersionView, loose: bool, bt: Seq<char>)
    requires
        well_formed(v),
        strict_ids(v.pre),
        bt.len() == 0 || build_tag(bt),
    ensures
        parse_spec(render(v) + build_suffix(bt), loose) == Some(
            VersionView {
                build: if bt.len() == 0 {
                    Seq::empty()
                } else {
                    seq![bt]
                },
                ..v
            },
        ),
{
    reveal(scan_version);
    lemma_num_text(v.major as nat);
    lemma_num_text(v.minor as nat);
    lemma_num_text(v.patch as nat);
    let a = num_text(v.major as nat);
    let bm = num_text(v.minor as nat);
    let c = num_text(v.patch as nat);
    let main = main_text(v.major, v.minor, v.patch);
    assert(main =~= a + seq!['.'] + bm + seq!['.'] + c);
    let r = render(v);
    let sfx = build_suffix(bt);
    let b = r + sfx;
    let tail = if v.pre.len() == 0 {
        Seq::empty()
    } else {
        seq!['-'] + join_ids(v.pre)
    };
    assert(r =~= main + tail);
    assert(b =~= main + tail + sfx);
    let e1 = a.len() as int;
    let p2 = e1 + 1;
    let e2 = p2 + bm.len();
    let p3 = e2 + 1;
    let e3 = p3 + c.len();
    assert(main.len() == e3);
    let n = r.len() as int;
    assert forall|m: int| 0 <= m < n implies #[trigger] b[m] == r[m] by {}
    // The text carries no surrounding whitespace and starts with a digit.
    assert(b[0] == a[0]);
    assert(is_digit(a[0]));
    assert(!is_ws(b[0]));
    if bt.len() > 0 {
        assert(b.last() == bt.last());
        assert(is_ident_char(bt[bt.len() - 1]));
    } else if v.pre.len() == 0 {
        assert(b.last() == c.last());
        assert(is_digit(c[c.len() - 1]));
    } else {
        let last = v.pre.last();
        assert(id_well_formed(v.pre[v.pre.len() - 1]));
        assert(!zero_led_text(v.pre[v.pre.len() - 1]));
        lemma_ident_text(last);
        if v.pre.len() == 1 {
            assert(join_ids(v.pre) == ident_text(v.pre[0]));
        }
        let jt = join_ids(v.pre);
        assert(jt.last() == ident_text(last).last());
        assert(is_ident_char(ident_text(last)[ident_text(last).len() - 1]));
        assert(b.last() == jt.last());
    }
    assert(!is_ws(b.last()));
    assert(ws_lead(b) == 0);
    assert(ws_trail(b) == 0);
    assert(trim(b) =~= b);
    assert(eqv_lead(b) == 0);
    assert(b.skip(0) =~= b);
    assert(version_body(b, loose) == b);
    // The three numbers.
    assert forall|m: int| 0 <= m < e1 implies #[trigger] is_digit(b[m]) by {
        assert(b[m] == a[m]);
    }
    assert(b[e1] == '.');
    lemma_digit_run_end_at(b, 0, e1);
    assert(b.subrange(0, e1) =~= a);
    assert forall|m: int| p2 <= m < e2 implies #[trigger] is_digit(b[m]) by {
        assert(b[m] == bm[m - p2]);
    }
    assert(b[e2] == '.');
    lemma_digit_run_end_at(b, p2, e2);
    assert(b.subrange(p2, e2) =~= bm);
    assert forall|m: int| p3 <= m < e3 implies #[trigger] is_digit(b[m]) by {
        assert(b[m] == c[m - p3]);
    }
    if v.pre.len() > 0 {
        assert(b[e3] == '-');
    } else if bt.len() > 0 {
        assert(e3 == n);
        assert(b[e3] == '+');
    }
    lemma_digit_run_end_at(b, p3, e3);
    assert(b.subrange(p3, e3) =~= c);
    assert(num_ok(a, loose));
    assert(num_ok(bm, loose));
    assert(dec_value(a) as u64 == v.major);
    assert(dec_value(bm) as u64 == v.minor);
    assert(dec_value(c) as u64 == v.patch);
    // The build tag.
    let tags = if bt.len() == 0 {
        Seq::<Seq<char>>::empty()
    } else {
        seq![bt]
    };
    if bt.len() > 0 {
        assert(b[n] == '+');
        assert forall|m: int| n + 1 <= m < b.len() implies #[trigger] is_ident_char(b[m]) by {
            assert(b[m] == bt[m - n - 1]);
        }
        lemma_ident_run_end_at(b, n + 1, b.len() as int);
        assert(b.subrange(n + 1, b.len() as int) =~= bt);
        assert(build_part(b, n) == Some((tags, b.len() as int)));
    } else {
        assert(b.len() == n);
        assert(build_part(b, n) == Some((tags, b.len() as int)));
    }
    let w = VersionView { build: tags, ..v };
    if v.pre.len() > 0 {
        assert(b.subrange(e3 + 1, n) =~= join_ids(v.pre));
        lemma_ident_list_join(b, e3 + 1, n, v.pre, loose);
        lemma_ident_text(v.pre[0]);
        assert(b[e3 + 1] == join_ids(v.pre)[0]);
        assert(join_ids(v.pre)[0] == ident_text(v.pre[0])[0]) by {
            lemma_join_ids_cons(v.pre[0], v.pre.skip(1));
            assert(v.pre =~= seq![v.pre[0]] + v.pre.skip(1));
        }
        assert(is_ident_char(b[e3 + 1]));
        assert(dash_pre(b, e3 + 1, loose) == Some((v.pre, n)));
        assert(finish(b, v.major, v.minor, c, v.pre, n) == Some(w));
    } else {
        assert(e3 == n);
        assert(v.pre =~= Seq::<IdentView>::empty());
        assert(finish(b, v.major, v.minor, c, Seq::empty(), e3) == Some(w));
    }
    assert(scan_tail(b, loose, v.major, v.minor, p3, e3) == Some(w));
}

/// The canonical form of a well-formed version with no zero-led text
/// identifier reads back, in either mode, as the same version without
/// build metadata.
pub proof fn lemma_render_reparses(v: VersionView, loose: bool)
    requires
        well_formed(v),
        strict_ids(v.pre),
    ensures
        parse_spec(render(v), loose) == Some(VersionView { build: Seq::empty(), ..v }),
{
    lemma_render_tagged_reparses(v, loose, Seq::empty());
    assert(render(v) + build_suffix(Seq::empty()) =~= render(v));
}

/// Reading identifiers strictly never gives a zero-led text.
proof fn lemma_ident_list_strict(b: Seq<char>, i: int)
    ensures
        ident_list(b, i, false) matches Some((ids, q)) ==> strict_ids(ids),
    decreases b.len() - i,
{
    if 0 <= i <= b.len() {
        let j = ident_run_end(b, i);
        crate::text::lemma_ident_run(b, i);
        if j < b.len() && b[j] == '.' {
            lemma_ident_list_strict(b, j + 1);
        }
        if let Some((ids, q)) = ident_list(b, i, false) {
            let raw = b.subrange(i, j);
            assert(pre_ident_ok(raw, false));
            assert(!zero_led_text(ident_of(raw)));
            assert forall|k: int| 0 <= k < ids.len() implies !zero_led_text(#[trigger] ids[k]) by {
                if k > 0 {
                    let (rest, q2) = ident_list(b, j + 1, false).unwrap();
                    assert(ids[k] == rest[k - 1]);
                }
            }
        }
    }
}

/// A version read strictly has no zero-led text among its prerelease
/// identifiers.
pub proof fn lemma_strict_parse_strict_ids(s: Seq<char>, o: Options)
    ensures
        !o.loose ==> (parsed(s, o) matches Some(v) ==> strict_ids(v.pre)),
{
    if !o.loose {
        reveal(scan_version);
        let b = version_body(s, false);
        let e1 = digit_run_end(b, 0);
        let p2 = e1 + 1;
        let e2 = digit_run_end(b, p2);
        let p3 = e2 + 1;
        let e3 = digit_run_end(b, p3);
        lemma_ident_list_strict(b, e3 + 1);
    }
}

/// Every version that parses, under any options, re-parses from its
/// canonical form in strict mode to the same version without its build
/// metadata (so the two rank equal and the canonical form is a fixed
/// point) — provided the canonical form is within the length limit and,
/// for a loose read, no text identifier is a run of digits with a
/// leading zero (a strict read never gives one).
pub proof fn lemma_canonical_round_trip(s: Seq<char>, o: Options)
    requires
        parsed(s, o) is Some,
        !too_long(render(parsed(s, o)->Some_0)),
        !o.loose || strict_ids(parsed(s, o)->Some_0.pre),
    ensures
        ({
            let v = parsed(s, o)->Some_0;
            let w = VersionView { build: Seq::empty(), ..v };
            &&& parsed(render(v), Options { loose: false, ..o }) == Some(w)
            &&& render(w) == render(v)
            &&& ver_order(v, w) == 0
        }),
{
    let v = parsed(s, o)->Some_0;
    lemma_parsed_well_formed(s, o);
    lemma_strict_parse_strict_ids(s, o);
    lemma_render_reparses(v, false);
    let w = VersionView { build: Seq::empty(), ..v };
    lemma_build_ignored(v, w, v);
}

} // verus!
