//! Functions built on top of parsing and comparison: coercion, diffs,
//! string operators, sorting, component access and truncation.
use crate::constants::{IntoOptions, Options, MAX_SAFE_COMPONENT_LENGTH, MAX_SAFE_INTEGER};
use crate::error::{Error, Result};
use crate::identifiers::{ident_text, text_order, compare_text};
use crate::semver::{
    build_order, lemma_build_order_antisym, lemma_build_order_trans, lemma_parse_outcome_ok,
    main_order, main_text, parse_chars, parse_outcome, parsed, push_main, render, ver_order,
    strip_eqv, SemVer, VersionView,
};
use crate::text::{
    alnum_char, chars_of, chars_of_string, dec_value, digit_char, digit_run_end,
    is_alnum, is_digit, lemma_digit_run, push_all, read_number, same_text, scan_digits, slice,
    string_of, trim, trim_vec,
};
use vstd::prelude::*;
use vstd::utf8::encode_utf8;

verus! {

// ── coerce ──────────────────────────────────────────────────────────────
/// A digit that may start a coerced version: not preceded by a digit or
/// a dot.
pub open spec fn coerce_start(t: Seq<char>, i: int) -> bool {
    0 <= i < t.len() && is_digit(t[i]) && (i == 0 || !(is_digit(t[i - 1]) || t[i - 1] == '.'))
}

/// A component run from `s`: within the length and value bounds.
pub open spec fn component_ok(t: Seq<char>, s: int) -> bool {
    let e = digit_run_end(t, s);
    e - s <= MAX_SAFE_COMPONENT_LENGTH && dec_value(t.subrange(s, e)) <= MAX_SAFE_INTEGER
}

/// Whether another component follows the run ending at `e`: a dot and
/// then a digit.
pub open spec fn more_follows(t: Seq<char>, e: int) -> bool {
    e + 1 < t.len() && t[e] == '.' && is_digit(t[e + 1])
}

/// The end of the prerelease/build tag that starts at `p` with `-` or `+`.
pub open spec fn tag_end(t: Seq<char>, p: int) -> int
    decreases t.len() - p,
{
    if p < 0 || p >= t.len() || !(is_alnum(t[p]) || t[p] == '-' || t[p] == '.' || t[p] == '+') {
        p
    } else {
        tag_end(t, p + 1)
    }
}

/// The text a coercion at `s` builds: up to three components (missing
/// ones are `0`), and with `include_prerelease` a directly following tag.
/// `None` when a component is too long or too large.
#[verifier::opaque]
pub open spec fn coerce_text(t: Seq<char>, s: int, o: Options) -> Option<Seq<char>> {
    let e1 = digit_run_end(t, s);
    let n1 = dec_value(t.subrange(s, e1));
    if !component_ok(t, s) {
        None
    } else {
        let has2 = more_follows(t, e1);
        let e2 = if has2 {
            digit_run_end(t, e1 + 1)
        } else {
            e1
        };
        if has2 && !component_ok(t, e1 + 1) {
            None
        } else {
            let n2 = if has2 {
                dec_value(t.subrange(e1 + 1, e2))
            } else {
                0
            };
            let has3 = has2 && more_follows(t, e2);
            let e3 = if has3 {
                digit_run_end(t, e2 + 1)
            } else {
                e2
            };
            if has3 && !component_ok(t, e2 + 1) {
                None
            } else {
                let n3 = if has3 {
                    dec_value(t.subrange(e2 + 1, e3))
                } else {
                    0
                };
                let base = main_text(n1 as u64, n2 as u64, n3 as u64);
                let tail = if o.include_prerelease && e3 < t.len() && (t[e3] == '-' || t[e3]
                    == '+') {
                    t.subrange(e3, tag_end(t, e3 + 1))
                } else {
                    Seq::empty()
                };
                Some(base + tail)
            }
        }
    }
}

/// The version a coercion at `s` gives.
#[verifier::opaque]
pub open spec fn coerce_at_spec(t: Seq<char>, s: int, o: Options) -> Option<VersionView> {
    match coerce_text(t, s, o) {
        None => None,
        Some(x) => parsed(x, o),
    }
}

/// The first start position from `i` at which a coercion succeeds.
pub open spec fn coerce_from(t: Seq<char>, i: int, o: Options) -> Option<VersionView>
    decreases t.len() - i,
{
    if i < 0 || i >= t.len() {
        None
    } else if coerce_start(t, i) && coerce_at_spec(t, i, o) is Some {
        coerce_at_spec(t, i, o)
    } else {
        coerce_from(t, i + 1, o)
    }
}

fn read_component(t: &Vec<char>, s: usize) -> (r: Option<(u64, usize)>)
    requires
        s <= t@.len(),
    ensures
        match r {
            Some((n, e)) => component_ok(t@, s as int) && e == digit_run_end(t@, s as int) && n
                == dec_value(t@.subrange(s as int, e as int)),
            None => !component_ok(t@, s as int),
        },
{
    let e = scan_digits(t, s);
    if e - s > MAX_SAFE_COMPONENT_LENGTH {
        return None;
    }
    match read_number(t, s, e) {
        Some(n) => Some((n, e)),
        None => None,
    }
}

fn more_follows_exec(t: &Vec<char>, e: usize) -> (r: bool)
    ensures
        r == more_follows(t@, e as int),
{
    e < t.len() && t[e] == '.' && e + 1 < t.len() && digit_char(t[e + 1])
}

/// The end of the tag starting at `p`.
fn coerce_tail_end(t: &Vec<char>, p: usize) -> (r: usize)
    requires
        p <= t@.len(),
    ensures
        r == tag_end(t@, p as int),
        p <= r <= t@.len(),
{
    let mut k = p;
    while k < t.len() && (alnum_char(t[k]) || t[k] == '-' || t[k] == '.' || t[k] == '+')
        invariant
            p <= k <= t@.len(),
            tag_end(t@, k as int) == tag_end(t@, p as int),
        decreases t@.len() - k,
    {
        k = k + 1;
    }
    k
}

/// The text a coercion at `s` builds.
fn coerce_text_exec(t: &Vec<char>, s: usize, o: Options) -> (r: Option<Vec<char>>)
    requires
        s <= t@.len(),
    ensures
        match (r, coerce_text(t@, s as int, o)) {
            (Some(x), Some(y)) => x@ == y,
            (None, None) => true,
            _ => false,
        },
{
    let len = t.len();
    proof {
        reveal(coerce_text);
        lemma_digit_run(t@, s as int);
    }
    let (n1, e1) = match read_component(t, s) {
        Some(x) => x,
        None => {
            return None;
        },
    };
    let has2 = more_follows_exec(t, e1);
    let mut e2 = e1;
    let mut n2: u64 = 0;
    if has2 {
        proof {
            lemma_digit_run(t@, e1 + 1);
        }
        match read_component(t, e1 + 1) {
            Some((n, e)) => {
                n2 = n;
                e2 = e;
            },
            None => {
                return None;
            },
        }
    }
    let has3 = has2 && more_follows_exec(t, e2);
    let mut e3 = e2;
    let mut n3: u64 = 0;
    if has3 {
        proof {
            lemma_digit_run(t@, e2 + 1);
        }
        match read_component(t, e2 + 1) {
            Some((n, e)) => {
                n3 = n;
                e3 = e;
            },
            None => {
                return None;
            },
        }
    }
    let mut out: Vec<char> = Vec::new();
    push_main(&mut out, n1, n2, n3);
    if o.include_prerelease && e3 < t.len() && (t[e3] == '-' || t[e3] == '+') {
        let end = coerce_tail_end(t, e3 + 1);
        let tail = slice(t, e3, end);
        push_all(&mut out, &tail);
    } else {
        assert(out@ =~= out@ + Seq::<char>::empty());
    }
    Some(out)
}

/// Attempt to read a coercible version starting exactly at `start`.
fn coerce_at(t: &Vec<char>, start: usize, o: Options) -> (r: Option<SemVer>)
    requires
        start <= t@.len(),
    ensures
        match coerce_at_spec(t@, start as int, o) {
            Some(v) => r is Some && r->Some_0@ == v && r->Some_0.options == o,
            None => r is None,
        },
{
    proof {
        reveal(coerce_at_spec);
    }
    match coerce_text_exec(t, start, o) {
        Some(x) => parse_chars(&x, o),
        None => None,
    }
}

/// Pull a version out of arbitrary text: the first digit run not
/// preceded by a digit or a dot, up to three dot-separated components,
/// missing ones zero (`"42"` coerces to `42.0.0`).
pub fn coerce<O: IntoOptions>(text: &str, options: O) -> (r: Option<SemVer>)
    ensures
        match coerce_from(text@, 0, options.as_options()) {
            Some(v) => r is Some && r->Some_0@ == v && r->Some_0.options == options.as_options(),
            None => r is None,
        },
{
    let o = options.into_options();
    let t = chars_of(text);
    let mut i: usize = 0;
    while i < t.len()
        invariant
            i <= t@.len(),
            t@ == text@,
            o == options.as_options(),
            coerce_from(t@, 0, o) == coerce_from(t@, i as int, o),
        decreases t@.len() - i,
    {
        let start_ok = digit_char(t[i]) && (i == 0 || !(digit_char(t[i - 1]) || t[i - 1] == '.'));
        assert(start_ok == coerce_start(t@, i as int));
        if start_ok {
            match coerce_at(&t, i, o) {
                Some(v) => {
                    assert(coerce_from(t@, i as int, o) == coerce_at_spec(t@, i as int, o));
                    return Some(v);
                },
                None => {},
            }
        }
        i = i + 1;
    }
    None
}

// ── diff ────────────────────────────────────────────────────────────────
/// The release kind separating two versions, or `None` when they are
/// equal by precedence.
pub open spec fn diff_spec(v1: VersionView, v2: VersionView) -> Option<Seq<char>> {
    let c = ver_order(v1, v2);
    if c == 0 {
        None
    } else {
        let high = if c > 0 {
            v1
        } else {
            v2
        };
        let low = if c > 0 {
            v2
        } else {
            v1
        };
        let high_pre = high.pre.len() > 0;
        let low_pre = low.pre.len() > 0;
        if low_pre && !high_pre && low.patch == 0 && low.minor == 0 {
            Some("major"@)
        } else if low_pre && !high_pre && main_order(low, high) == 0 {
            if low.minor != 0 && low.patch == 0 {
                Some("minor"@)
            } else {
                Some("patch"@)
            }
        } else {
            let prefix = if high_pre {
                "pre"@
            } else {
                Seq::empty()
            };
            if v1.major != v2.major {
                Some(prefix + "major"@)
            } else if v1.minor != v2.minor {
                Some(prefix + "minor"@)
            } else if v1.patch != v2.patch {
                Some(prefix + "patch"@)
            } else {
                Some("prerelease"@)
            }
        }
    }
}

fn text_of(lit: &str) -> (r: Vec<char>)
    ensures
        r@ == lit@,
{
    chars_of(lit)
}

/// The release kind separating two versions (read loosely), or `None`
/// when equal or either does not parse.
///
/// Going from `1.0.0-1` to `1.0.0` is a *major* difference: the
/// prerelease belongs to a version that had not been released yet.
pub fn diff(a: &str, b: &str) -> (r: Option<String>)
    ensures
        match (parsed(a@, Options::loose_spec()), parsed(b@, Options::loose_spec())) {
            (Some(x), Some(y)) => match diff_spec(x, y) {
                Some(d) => r is Some && r->Some_0@ == d,
                None => r is None,
            },
            _ => r is None,
        },
{
    let v1 = match crate::parse(a, true) {
        Some(v) => v,
        None => {
            return None;
        },
    };
    let v2 = match crate::parse(b, true) {
        Some(v) => v,
        None => {
            return None;
        },
    };
    let c = v1.order(&v2);
    if c == 0 {
        return None;
    }
    let v1_higher = c > 0;
    let high = if v1_higher {
        &v1
    } else {
        &v2
    };
    let low = if v1_higher {
        &v2
    } else {
        &v1
    };
    let high_has_pre = high.is_prerelease();
    let low_has_pre = low.is_prerelease();
    if low_has_pre && !high_has_pre {
        // A prerelease of x.0.0 becoming any release is a major step.
        if low.patch == 0 && low.minor == 0 {
            return Some(string_of(&text_of("major")));
        }
        // When the numeric parts match, the step is whichever component
        // the prerelease was attached to.
        if low.main_order_exec(high) == 0 {
            if low.minor != 0 && low.patch == 0 {
                return Some(string_of(&text_of("minor")));
            }
            return Some(string_of(&text_of("patch")));
        }
    }
    let mut out: Vec<char> = Vec::new();
    if high_has_pre {
        out = text_of("pre");
    }
    let ghost prefix = out@;
    if v1.major != v2.major {
        push_all(&mut out, &text_of("major"));
    } else if v1.minor != v2.minor {
        push_all(&mut out, &text_of("minor"));
    } else if v1.patch != v2.patch {
        push_all(&mut out, &text_of("patch"));
    } else {
        // Only the prerelease differs.
        return Some(string_of(&text_of("prerelease")));
    }
    assert(high_has_pre ==> prefix == "pre"@);
    assert(!high_has_pre ==> prefix == Seq::<char>::empty());
    Some(string_of(&out))
}

// ── cmp ─────────────────────────────────────────────────────────────────
/// What an operator given as text says of a precedence `c`, or `None`
/// for an unknown operator. `""`, `"="`, `"=="` and `"==="` all mean
/// equality; `"!="` and `"!=="` inequality.
pub open spec fn op_holds(op: Seq<char>, c: i8) -> Option<bool> {
    if op == ""@ || op == "="@ || op == "=="@ || op == "==="@ {
        Some(c == 0)
    } else if op == "!="@ || op == "!=="@ {
        Some(c != 0)
    } else if op == ">"@ {
        Some(c > 0)
    } else if op == ">="@ {
        Some(c >= 0)
    } else if op == "<"@ {
        Some(c < 0)
    } else if op == "<="@ {
        Some(c <= 0)
    } else {
        None
    }
}

fn is_text(a: &Vec<char>, lit: &str) -> (r: bool)
    ensures
        r == (a@ == lit@),
{
    let b = chars_of(lit);
    same_text(a, &b)
}

/// Compare with an operator given as text. The versions are read first;
/// an unknown operator is an error after that.
pub fn cmp<O: IntoOptions>(a: &str, op: &str, b: &str, options: O) -> (r: Result<bool>)
    ensures
        match (parsed(a@, options.as_options()), parsed(b@, options.as_options())) {
            (Some(x), Some(y)) => match op_holds(op@, ver_order(x, y)) {
                Some(t) => r == Ok::<bool, Error>(t),
                None => r matches Err(Error::InvalidIncrement { kind }) && kind@
                    == "invalid operator: "@ + op@,
            },
            (None, _) => r matches Err(e) && parse_outcome(a@, options.as_options(), Err(e)),
            (Some(_), None) => r matches Err(e) && parse_outcome(
                b@,
                options.as_options(),
                Err(e),
            ),
        },
{
    let ord = crate::compare(a, b, options)?;
    let o = chars_of(op);
    if is_text(&o, "") || is_text(&o, "=") || is_text(&o, "==") || is_text(&o, "===") {
        Ok(ord == 0)
    } else if is_text(&o, "!=") || is_text(&o, "!==") {
        Ok(ord != 0)
    } else if is_text(&o, ">") {
        Ok(ord > 0)
    } else if is_text(&o, ">=") {
        Ok(ord >= 0)
    } else if is_text(&o, "<") {
        Ok(ord < 0)
    } else if is_text(&o, "<=") {
        Ok(ord <= 0)
    } else {
        let mut kind = text_of("invalid operator: ");
        push_all(&mut kind, &o);
        Err(Error::InvalidIncrement { kind: string_of(&kind) })
    }
}

// ── sorting ─────────────────────────────────────────────────────────────
/// How `sort` orders two texts: versions by precedence and then build,
/// unparseable texts after every version and among themselves as text.
pub open spec fn sort_order(a: Seq<char>, b: Seq<char>, o: Options) -> i8 {
    match (parsed(a, o), parsed(b, o)) {
        (Some(x), Some(y)) => build_order(x, y),
        (Some(_), None) => -1i8,
        (None, Some(_)) => 1,
        (None, None) => text_order(a, b),
    }
}

pub proof fn lemma_sort_order_antisym(a: Seq<char>, b: Seq<char>, o: Options)
    ensures
        sort_order(a, b, o) == -sort_order(b, a, o),
{
    crate::identifiers::lemma_text_order_antisym(a, b);
    if let (Some(x), Some(y)) = (parsed(a, o), parsed(b, o)) {
        lemma_build_order_antisym(x, y);
    }
}

pub proof fn lemma_sort_order_trans(a: Seq<char>, b: Seq<char>, c: Seq<char>, o: Options)
    requires
        sort_order(a, b, o) <= 0,
        sort_order(b, c, o) <= 0,
    ensures
        sort_order(a, c, o) <= 0,
{
    match (parsed(a, o), parsed(b, o), parsed(c, o)) {
        (Some(x), Some(y), Some(z)) => lemma_build_order_trans(x, y, z),
        (None, None, None) => crate::identifiers::lemma_text_order_trans(a, b, c),
        _ => {},
    }
}

/// `sort_order` on two strings, as -1, 0 or 1.
fn build_aware_compare(a: &String, b: &String, o: Options) -> (r: i8)
    ensures
        r == sort_order(a@, b@, o),
{
    let x = chars_of_string(a);
    let y = chars_of_string(b);
    match (parse_chars(&x, o), parse_chars(&y, o)) {
        (Some(p), Some(q)) => p.build_order_exec(&q),
        (Some(_), None) => -1,
        (None, Some(_)) => 1,
        (None, None) => compare_text(&x, &y),
    }
}

/// Whether `x` may stand before `y` in the requested direction.
pub open spec fn in_order(x: Seq<char>, y: Seq<char>, o: Options, descending: bool) -> bool {
    if descending {
        sort_order(y, x, o) <= 0
    } else {
        sort_order(x, y, o) <= 0
    }
}

/// Every pair of texts stands in order.
pub open spec fn sorted_by(v: Seq<String>, o: Options, descending: bool) -> bool {
    forall|i: int, j: int|
        0 <= i < j < v.len() ==> in_order(#[trigger] v[i]@, #[trigger] v[j]@, o, descending)
}

proof fn lemma_in_order_trans(x: Seq<char>, y: Seq<char>, z: Seq<char>, o: Options, d: bool)
    requires
        in_order(x, y, o, d),
        in_order(y, z, o, d),
    ensures
        in_order(x, z, o, d),
{
    if d {
        lemma_sort_order_trans(z, y, x, o);
    } else {
        lemma_sort_order_trans(x, y, z, o);
    }
}

proof fn lemma_in_order_total(x: Seq<char>, y: Seq<char>, o: Options, d: bool)
    ensures
        in_order(x, y, o, d) || in_order(y, x, o, d),
{
    lemma_sort_order_antisym(x, y, o);
}

/// Inserting `x` before the first element that belongs strictly after it
/// keeps a sorted sequence sorted.
proof fn lemma_insert_sorted(s: Seq<String>, pos: int, x: String, o: Options, d: bool)
    requires
        sorted_by(s, o, d),
        0 <= pos <= s.len(),
        forall|m: int| 0 <= m < pos ==> in_order(#[trigger] s[m]@, x@, o, d),
        pos < s.len() ==> !in_order(s[pos]@, x@, o, d),
    ensures
        sorted_by(s.insert(pos, x), o, d),
{
    let t = s.insert(pos, x);
    if pos < s.len() {
        lemma_in_order_total(s[pos]@, x@, o, d);
    }
    assert forall|i: int, j: int| 0 <= i < j < t.len() implies in_order(
        #[trigger] t[i]@,
        #[trigger] t[j]@,
        o,
        d,
    ) by {
        if i == pos {
            assert(t[j] == s[j - 1]);
            if j - 1 > pos {
                assert(in_order(s[pos]@, s[j - 1]@, o, d));
                lemma_in_order_trans(x@, s[pos]@, s[j - 1]@, o, d);
            }
        } else if j == pos {
            assert(t[i] == s[i]);
        } else if j < pos {
            assert(t[i] == s[i] && t[j] == s[j]);
        } else if i < pos {
            assert(t[i] == s[i] && t[j] == s[j - 1]);
        } else {
            assert(t[i] == s[i - 1] && t[j] == s[j - 1]);
        }
    }
}

/// Whether `y` belongs strictly after `x` in the requested direction.
fn sorts_after(y: &String, x: &String, o: Options, descending: bool) -> (r: bool)
    ensures
        r == !in_order(y@, x@, o, descending),
{
    let c = if descending {
        build_aware_compare(x, y, o)
    } else {
        build_aware_compare(y, x, o)
    };
    c > 0
}

/// `out` is `orig` rearranged by `perm`: place `m` of `out` holds the
/// item at place `perm[m]` of `orig`, and no place is taken twice.
pub open spec fn arranged(out: Seq<String>, orig: Seq<String>, perm: Seq<int>) -> bool {
    &&& perm.len() == out.len()
    &&& out.len() == orig.len()
    &&& forall|m: int|
        0 <= m < out.len() ==> 0 <= #[trigger] perm[m] < orig.len() && out[m] == orig[perm[m]]
    &&& forall|m: int, n: int| 0 <= m < n < out.len() ==> #[trigger] perm[m] != #[trigger] perm[n]
}

/// Texts that tie keep the order they had: the sort is stable.
pub open spec fn keeps_ties(out: Seq<String>, perm: Seq<int>, o: Options, descending: bool) -> bool {
    forall|m: int, n: int|
        0 <= m < n < out.len() && in_order(#[trigger] out[n]@, #[trigger] out[m]@, o, descending)
            ==> perm[m] < perm[n]
}

/// Stable insertion sort by `sort_order`, ascending or descending.
fn sort_texts(versions: &mut Vec<String>, o: Options, descending: bool)
    ensures
        final(versions)@.to_multiset() == old(versions)@.to_multiset(),
        sorted_by(final(versions)@, o, descending),
        exists|perm: Seq<int>|
            arranged(final(versions)@, old(versions)@, perm) && keeps_ties(
                final(versions)@,
                perm,
                o,
                descending,
            ),
{
    broadcast use vstd::seq_lib::group_to_multiset_ensures;

    let mut items: Vec<String> = Vec::new();
    std::mem::swap(&mut items, versions);
    let ghost orig = items@;
    let mut out: Vec<String> = Vec::new();
    let ghost mut perm: Seq<int> = Seq::empty();
    let mut i: usize = 0;
    while i < items.len()
        invariant
            i <= items@.len(),
            items@ == orig,
            out@.to_multiset() == orig.take(i as int).to_multiset(),
            sorted_by(out@, o, descending),
            arranged(out@, orig.take(i as int), perm),
            keeps_ties(out@, perm, o, descending),
        decreases items@.len() - i,
    {
        let x = items[i].clone();
        assert(x == orig[i as int]);
        // The first position holding something that sorts after `x`.
        let mut pos: usize = 0;
        while pos < out.len() && !sorts_after(&out[pos], &x, o, descending)
            invariant
                pos <= out@.len(),
                out@.to_multiset() == orig.take(i as int).to_multiset(),
                sorted_by(out@, o, descending),
                forall|m: int| 0 <= m < pos ==> in_order(#[trigger] out@[m]@, x@, o, descending),
            decreases out@.len() - pos,
        {
            pos = pos + 1;
        }
        let ghost before = out@;
        proof {
            lemma_insert_sorted(out@, pos as int, x, o, descending);
            vstd::seq_lib::to_multiset_insert(out@, pos as int, x);
        }
        out.insert(pos, x);
        proof {
            lemma_insert_keeps_ties(before, perm, pos as int, x, i as int, o, descending);
            lemma_insert_arranged(before, orig, perm, pos as int, i as int);
            perm = perm.insert(pos as int, i as int);
        }
        assert(orig.take(i + 1) =~= orig.take(i as int).push(orig[i as int]));
        proof {
            vstd::seq_lib::to_multiset_build(orig.take(i as int), orig[i as int]);
        }
        i = i + 1;
    }
    assert(orig.take(orig.len() as int) =~= orig);
    *versions = out;
}

/// Inserting the item from place `i` of `orig` keeps the arrangement.
proof fn lemma_insert_arranged(out: Seq<String>, orig: Seq<String>, perm: Seq<int>, pos: int, i: int)
    requires
        0 <= i < orig.len(),
        0 <= pos <= out.len(),
        arranged(out, orig.take(i), perm),
    ensures
        arranged(out.insert(pos, orig[i]), orig.take(i + 1), perm.insert(pos, i)),
{
    let t = out.insert(pos, orig[i]);
    let p = perm.insert(pos, i);
    let o1 = orig.take(i + 1);
    assert forall|m: int| 0 <= m < t.len() implies 0 <= #[trigger] p[m] < o1.len() && t[m]
        == o1[p[m]] by {
        if m < pos {
            assert(p[m] == perm[m] && t[m] == out[m]);
        } else if m > pos {
            assert(p[m] == perm[m - 1] && t[m] == out[m - 1]);
        }
    }
    assert forall|m: int, n: int| 0 <= m < n < t.len() implies #[trigger] p[m] != #[trigger] p[n] by {
        if m != pos && n != pos {
            let pm = if m < pos { m } else { m - 1 };
            let pn = if n < pos { n } else { n - 1 };
            assert(p[m] == perm[pm] && p[n] == perm[pn]);
        } else if m == pos {
            assert(p[n] == perm[n - 1]);
        } else {
            assert(p[m] == perm[m]);
        }
    }
}

/// Inserting an item from a later place before the first text that sorts
/// strictly after it keeps ties in their original order.
proof fn lemma_insert_keeps_ties(
    out: Seq<String>,
    perm: Seq<int>,
    pos: int,
    x: String,
    i: int,
    o: Options,
    d: bool,
)
    requires
        0 <= pos <= out.len(),
        perm.len() == out.len(),
        forall|m: int| 0 <= m < out.len() ==> #[trigger] perm[m] < i,
        sorted_by(out, o, d),
        keeps_ties(out, perm, o, d),
        pos < out.len() ==> !in_order(out[pos]@, x@, o, d),
    ensures
        keeps_ties(out.insert(pos, x), perm.insert(pos, i), o, d),
{
    let t = out.insert(pos, x);
    let p = perm.insert(pos, i);
    assert forall|m: int, n: int|
        0 <= m < n < t.len() && in_order(#[trigger] t[n]@, #[trigger] t[m]@, o, d) implies p[m]
        < p[n] by {
        if m == pos {
            // `t[n]` is at or after `out[pos]`, which sorts strictly after `x`.
            assert(t[n] == out[n - 1]);
            if n - 1 > pos {
                assert(in_order(out[pos]@, out[n - 1]@, o, d));
                lemma_in_order_trans(out[pos]@, out[n - 1]@, x@, o, d);
            }
            assert(false);
        } else if n == pos {
            assert(p[m] == perm[m]);
        } else {
            let pm = if m < pos { m } else { m - 1 };
            let pn = if n < pos { n } else { n - 1 };
            assert(t[m] == out[pm] && t[n] == out[pn] && p[m] == perm[pm] && p[n] == perm[pn]);
        }
    }
}

/// Sort ascending by precedence, then by build metadata; unparseable
/// texts last, in text order.
pub fn sort<O: IntoOptions>(versions: &mut Vec<String>, options: O)
    ensures
        final(versions)@.to_multiset() == old(versions)@.to_multiset(),
        sorted_by(final(versions)@, options.as_options(), false),
        exists|perm: Seq<int>|
            arranged(final(versions)@, old(versions)@, perm) && keeps_ties(
                final(versions)@,
                perm,
                options.as_options(),
                false,
            ),
{
    sort_texts(versions, options.into_options(), false);
}

/// Sort descending.
pub fn rsort<O: IntoOptions>(versions: &mut Vec<String>, options: O)
    ensures
        final(versions)@.to_multiset() == old(versions)@.to_multiset(),
        sorted_by(final(versions)@, options.as_options(), true),
        exists|perm: Seq<int>|
            arranged(final(versions)@, old(versions)@, perm) && keeps_ties(
                final(versions)@,
                perm,
                options.as_options(),
                true,
            ),
{
    sort_texts(versions, options.into_options(), true);
}

// ── components ──────────────────────────────────────────────────────────
/// The major component, or `None` if the version does not parse.
pub fn major<O: IntoOptions>(version: &str, options: O) -> (r: Option<u64>)
    ensures
        r == (match parsed(version@, options.as_options()) {
            Some(v) => Some(v.major),
            None => None::<u64>,
        }),
{
    match crate::parse(version, options) {
        Some(v) => Some(v.major),
        None => None,
    }
}

/// The minor component.
pub fn minor<O: IntoOptions>(version: &str, options: O) -> (r: Option<u64>)
    ensures
        r == (match parsed(version@, options.as_options()) {
            Some(v) => Some(v.minor),
            None => None::<u64>,
        }),
{
    match crate::parse(version, options) {
        Some(v) => Some(v.minor),
        None => None,
    }
}

/// The patch component.
pub fn patch<O: IntoOptions>(version: &str, options: O) -> (r: Option<u64>)
    ensures
        r == (match parsed(version@, options.as_options()) {
            Some(v) => Some(v.patch),
            None => None::<u64>,
        }),
{
    match crate::parse(version, options) {
        Some(v) => Some(v.patch),
        None => None,
    }
}

/// The prerelease identifiers, as text: `None` for an unparseable
/// version and an empty list for a release.
pub fn prerelease<O: IntoOptions>(version: &str, options: O) -> (r: Option<Vec<String>>)
    ensures
        match parsed(version@, options.as_options()) {
            Some(v) => r is Some && r->Some_0@.len() == v.pre.len() && forall|i: int|
                0 <= i < v.pre.len() ==> #[trigger] r->Some_0@[i]@ == ident_text(v.pre[i]),
            None => r is None,
        },
{
    match crate::parse(version, options) {
        Some(v) => {
            let mut out: Vec<String> = Vec::new();
            let mut i: usize = 0;
            while i < v.prerelease.len()
                invariant
                    i <= v.prerelease@.len(),
                    out@.len() == i,
                    forall|k: int|
                        0 <= k < i ==> #[trigger] out@[k]@ == ident_text(v.prerelease@[k]@),
                decreases v.prerelease@.len() - i,
            {
                out.push(v.prerelease[i].to_string());
                i = i + 1;
            }
            Some(out)
        },
        None => None,
    }
}

/// Strip surrounding whitespace and leading `=`/`v` characters, then
/// validate, returning the canonical form.
pub open spec fn cleaned(version: Seq<char>) -> Seq<char> {
    let t = trim(version);
    trim(t.skip(crate::semver::eqv_lead(t) as int))
}

/// Strip whitespace and a leading `=` or `v`, then validate.
pub fn clean<O: IntoOptions>(version: &str, options: O) -> (r: Option<String>)
    ensures
        match parsed(cleaned(version@), options.as_options()) {
            Some(v) => r is Some && r->Some_0@ == render(v),
            None => r is None,
        },
{
    let chars = chars_of(version);
    let trimmed = trim_vec(&chars);
    let stripped = strip_eqv(&trimmed);
    let stripped = trim_vec(&stripped);
    match parse_chars(&stripped, options.into_options()) {
        Some(v) => Some(v.version()),
        None => None,
    }
}

// ── truncate ────────────────────────────────────────────────────────────
/// The release kinds `truncate` accepts.
pub open spec fn release_type(t: Seq<char>) -> bool {
    t == "major"@ || t == "premajor"@ || t == "minor"@ || t == "preminor"@ || t == "patch"@ || t
        == "prepatch"@ || t == "prerelease"@
}

/// What truncation leaves of a version.
pub open spec fn truncate_spec(v: VersionView, t: Seq<char>) -> VersionView {
    if t == "premajor"@ || t == "preminor"@ || t == "prepatch"@ || t == "prerelease"@ {
        v
    } else if t == "major"@ {
        VersionView { minor: 0, patch: 0, pre: Seq::empty(), ..v }
    } else if t == "minor"@ {
        VersionView { patch: 0, pre: Seq::empty(), ..v }
    } else {
        VersionView { pre: Seq::empty(), ..v }
    }
}

/// Drop the components below a given precision: `major`, `minor` and
/// `patch` zero out everything below themselves and drop the prerelease;
/// a `pre*` truncation keeps the version as it stands.
pub fn truncate<O: IntoOptions>(version: &str, truncation: &str, options: O) -> (r: Option<
    String,
>)
    ensures
        match parsed(version@, options.as_options()) {
            Some(v) => if release_type(truncation@) {
                r is Some && r->Some_0@ == render(truncate_spec(v, truncation@))
            } else {
                r is None
            },
            None => r is None,
        },
{
    let t = chars_of(truncation);
    let is_pre = is_text(&t, "premajor") || is_text(&t, "preminor") || is_text(&t, "prepatch")
        || is_text(&t, "prerelease");
    let is_major = is_text(&t, "major");
    let is_minor = is_text(&t, "minor");
    let is_patch = is_text(&t, "patch");
    if !(is_pre || is_major || is_minor || is_patch) {
        return None;
    }
    let mut v = crate::parse(version, options)?;
    // A prerelease truncation keeps the version as it stands.
    if is_pre {
        return Some(v.version());
    }
    let empty: Vec<crate::identifiers::Identifier> = Vec::new();
    v.prerelease = empty;
    assert(crate::identifiers::ids_view(v.prerelease@) =~= Seq::<crate::identifiers::IdentView>::empty());
    if is_major {
        v.minor = 0;
        v.patch = 0;
    } else if is_minor {
        v.patch = 0;
    }
    Some(v.version())
}

// ── comparisons with fixed options ──────────────────────────────────────
/// Compare in loose mode.
pub fn compare_loose(a: &str, b: &str) -> (r: Result<i8>)
    ensures
        crate::order_outcome(a@, b@, Options::loose_spec(), r),
{
    crate::compare(a, b, true)
}

/// Compare including build metadata, for sorting rather than for deciding
/// which version is newer.
pub fn compare_build<O: IntoOptions>(a: &str, b: &str, options: O) -> (r: Result<i8>)
    ensures
        match (parsed(a@, options.as_options()), parsed(b@, options.as_options())) {
            (Some(x), Some(y)) => r == Ok::<i8, Error>(build_order(x, y)),
            (None, _) => r matches Err(e) && parse_outcome(a@, options.as_options(), Err(e)),
            (Some(_), None) => r matches Err(e) && parse_outcome(
                b@,
                options.as_options(),
                Err(e),
            ),
        },
{
    let o = options.into_options();
    let x = SemVer::parse_with(a, o);
    proof {
        lemma_parse_outcome_ok(a@, o, x);
    }
    let x = match x {
        Ok(x) => x,
        Err(e) => {
            return Err(e);
        },
    };
    let y = SemVer::parse_with(b, o);
    proof {
        lemma_parse_outcome_ok(b@, o, y);
    }
    let y = match y {
        Ok(y) => y,
        Err(e) => {
            return Err(e);
        },
    };
    Ok(x.build_order_exec(&y))
}

// ── simplifying a range over known versions ────────────────────────────
/// Whether the version at index `i` sorts before the one at `j`: lower
/// precedence, or equal precedence and earlier in the list.
pub open spec fn sorts_before(vs: Seq<Seq<char>>, i: int, j: int, o: Options) -> bool {
    let a = parsed(vs[i], o)->Some_0;
    let b = parsed(vs[j], o)->Some_0;
    ver_order(a, b) < 0 || (ver_order(a, b) == 0 && i < j)
}

/// `ix` lists the indices of the versions that parse, sorted stably by
/// precedence.
pub open spec fn stably_sorted(ix: Seq<int>, vs: Seq<Seq<char>>, o: Options) -> bool {
    &&& forall|p: int|
        0 <= p < ix.len() ==> 0 <= #[trigger] ix[p] < vs.len() && parsed(vs[ix[p]], o) is Some
    &&& forall|p: int, q: int|
        0 <= p < q < ix.len() ==> sorts_before(vs, #[trigger] ix[p], #[trigger] ix[q], o)
    &&& forall|k: int|
        0 <= k < vs.len() && #[trigger] parsed(vs[k], o) is Some ==> exists|p: int|
            0 <= p < ix.len() && ix[p] == k
}

/// The runs found so far, and the first and last version of the run in
/// progress.
pub struct RunState {
    pub runs: Seq<(Seq<char>, Option<Seq<char>>)>,
    pub first: Option<Seq<char>>,
    pub prev: Option<Seq<char>>,
}

/// Take in the next version: one that satisfies extends the current run
/// (or starts one); one that does not closes the current run.
pub open spec fn run_step(st: RunState, v: Seq<char>, sat: bool) -> RunState {
    if sat {
        RunState {
            prev: Some(v),
            first: if st.first is None {
                Some(v)
            } else {
                st.first
            },
            ..st
        }
    } else if st.prev is Some {
        RunState {
            runs: st.runs.push((st.first->Some_0, st.prev)),
            first: None,
            prev: None,
        }
    } else {
        st
    }
}

/// The run state after the versions `ts`.
pub open spec fn run_fold(ts: Seq<Seq<char>>, range: Seq<char>, o: Options) -> RunState
    decreases ts.len(),
{
    if ts.len() == 0 {
        RunState { runs: Seq::empty(), first: None, prev: None }
    } else {
        run_step(
            run_fold(ts.drop_last(), range, o),
            ts.last(),
            crate::satisfies_spec(ts.last(), range, o),
        )
    }
}

/// The contiguous runs of satisfying versions; the last one, if still
/// open, has no end.
pub open spec fn runs_of(ts: Seq<Seq<char>>, range: Seq<char>, o: Options) -> Seq<
    (Seq<char>, Option<Seq<char>>),
> {
    let st = run_fold(ts, range, o);
    if st.first is Some {
        st.runs.push((st.first->Some_0, None))
    } else {
        st.runs
    }
}

/// One run written as a range: a single version, `*` when it is open
/// from the lowest version, `>=min` when open, `<=max` when it starts at
/// the lowest version, else `min - max`.
pub open spec fn run_text(run: (Seq<char>, Option<Seq<char>>), lowest: Seq<char>) -> Seq<char> {
    let (min, max) = run;
    match max {
        Some(mx) => if mx == min {
            min
        } else if min == lowest {
            seq!['<', '='] + mx
        } else {
            min + seq![' ', '-', ' '] + mx
        },
        None => if min == lowest {
            seq!['*']
        } else {
            seq!['>', '='] + min
        },
    }
}

/// The runs written out and joined by ` || `.
pub open spec fn runs_text(runs: Seq<(Seq<char>, Option<Seq<char>>)>, lowest: Seq<char>) -> Seq<
    char,
> {
    crate::range::join_with(
        runs.map_values(|r: (Seq<char>, Option<Seq<char>>)| run_text(r, lowest)),
        seq![' ', '|', '|', ' '],
    )
}

/// What simplifying proposes for the versions in sorted order:
/// `<0.0.0-0` when nothing satisfies, else the runs written out when that
/// is shorter in bytes than the range, else the range.
pub open spec fn simplified(ts: Seq<Seq<char>>, range: Seq<char>, o: Options) -> Seq<char> {
    let lowest = if ts.len() > 0 {
        ts[0]
    } else {
        Seq::empty()
    };
    let text = runs_text(runs_of(ts, range, o), lowest);
    if text.len() == 0 {
        seq!['<', '0', '.', '0', '.', '0', '-', '0']
    } else if encode_utf8(text).len() < encode_utf8(range).len() {
        text
    } else {
        range
    }
}

/// The texts at the given indices.
pub open spec fn at_indices(vs: Seq<Seq<char>>, ix: Seq<int>) -> Seq<Seq<char>> {
    Seq::new(ix.len(), |p: int| vs[ix[p]])
}

proof fn lemma_lt_le(a: VersionView, b: VersionView, c: VersionView)
    requires
        ver_order(a, b) < 0,
        ver_order(b, c) <= 0,
    ensures
        ver_order(a, c) < 0,
{
    crate::semver::lemma_ver_order_trans(a, b, c);
    if ver_order(a, c) == 0 {
        crate::semver::lemma_ver_order_antisym(a, c);
        crate::semver::lemma_ver_order_trans(c, a, b);
        crate::semver::lemma_ver_order_antisym(b, c);
    }
}

/// The parseable versions with their indices, sorted stably by
/// precedence.
fn sorted_versions(versions: &[&str], o: Options) -> (r: Vec<(usize, SemVer)>)
    ensures
        stably_sorted(
            r@.map_values(|e: (usize, SemVer)| e.0 as int),
            crate::strs_view(versions@),
            o,
        ),
        forall|p: int|
            0 <= p < r@.len() ==> parsed(crate::strs_view(versions@)[#[trigger] r@[p].0 as int], o)
                == Some(r@[p].1@),
{
    let ghost vs = crate::strs_view(versions@);
    let mut out: Vec<(usize, SemVer)> = Vec::new();
    let mut i: usize = 0;
    while i < versions.len()
        invariant
            i <= versions@.len(),
            vs == crate::strs_view(versions@),
            forall|p: int|
                0 <= p < out@.len() ==> (#[trigger] out@[p]).0 < i && parsed(vs[out@[p].0 as int], o)
                    == Some(out@[p].1@),
            forall|p: int, q: int|
                0 <= p < q < out@.len() ==> sorts_before(
                    vs,
                    (#[trigger] out@[p]).0 as int,
                    (#[trigger] out@[q]).0 as int,
                    o,
                ),
            forall|k: int|
                0 <= k < i && #[trigger] parsed(vs[k], o) is Some ==> exists|p: int|
                    0 <= p < out@.len() && out@[p].0 == k,
        decreases versions@.len() - i,
    {
        assert(vs[i as int] == versions@[i as int]@);
        let chars = chars_of(versions[i]);
        match parse_chars(&chars, o) {
            None => {},
            Some(v) => {
                let mut pos: usize = 0;
                while pos < out.len() && out[pos].1.order(&v) <= 0
                    invariant
                        pos <= out@.len(),
                        forall|p: int| 0 <= p < pos ==> ver_order(#[trigger] out@[p].1@, v@) <= 0,
                    decreases out@.len() - pos,
                {
                    pos = pos + 1;
                }
                let ghost before = out@;
                proof {
                    if pos < before.len() {
                        crate::semver::lemma_ver_order_antisym(before[pos as int].1@, v@);
                    }
                    assert forall|p: int, q: int|
                        0 <= p < q < before.len() + 1 implies sorts_before(
                        vs,
                        (#[trigger] before.insert(pos as int, (i, v))[p]).0 as int,
                        (#[trigger] before.insert(pos as int, (i, v))[q]).0 as int,
                        o,
                    ) by {
                        let t = before.insert(pos as int, (i, v));
                        if p == pos {
                            assert(t[q] == before[q - 1]);
                            if q - 1 > pos {
                                assert(sorts_before(vs, before[pos as int].0 as int, before[q - 1].0 as int, o));
                                lemma_lt_le(v@, before[pos as int].1@, before[q - 1].1@);
                            }
                        } else if q == pos {
                            assert(t[p] == before[p]);
                        } else if q < pos {
                            assert(t[p] == before[p] && t[q] == before[q]);
                        } else if p < pos {
                            assert(t[p] == before[p] && t[q] == before[q - 1]);
                        } else {
                            assert(t[p] == before[p - 1] && t[q] == before[q - 1]);
                        }
                    }
                }
                out.insert(pos, (i, v));
                proof {
                    assert forall|k: int|
                        0 <= k < i + 1 && #[trigger] parsed(vs[k], o) is Some implies exists|p: int|
                        0 <= p < out@.len() && out@[p].0 == k by {
                        if k == i {
                            assert(out@[pos as int].0 == k);
                        } else {
                            let p0 = choose|p: int| 0 <= p < before.len() && before[p].0 == k;
                            if p0 < pos {
                                assert(out@[p0].0 == k);
                            } else {
                                assert(out@[p0 + 1].0 == k);
                            }
                        }
                    }
                }
            },
        }
        i = i + 1;
    }
    let ghost ix = out@.map_values(|e: (usize, SemVer)| e.0 as int);
    assert forall|k: int|
        0 <= k < vs.len() && #[trigger] parsed(vs[k], o) is Some implies exists|p: int|
        0 <= p < ix.len() && ix[p] == k by {
        let p0 = choose|p: int| 0 <= p < out@.len() && out@[p].0 == k;
        assert(ix[p0] == k);
    }
    out
}

pub open spec fn opt_chars(v: Option<Vec<char>>) -> Option<Seq<char>> {
    match v {
        Some(x) => Some(x@),
        None => None,
    }
}

pub open spec fn runs_view(v: Seq<(Vec<char>, Option<Vec<char>>)>) -> Seq<
    (Seq<char>, Option<Seq<char>>),
> {
    v.map_values(|e: (Vec<char>, Option<Vec<char>>)| (e.0@, opt_chars(e.1)))
}

fn copy_chars(v: &Vec<char>) -> (r: Vec<char>)
    ensures
        r@ == v@,
{
    slice(v, 0, v.len())
}

/// Append one run written as a range.
fn push_run_text(out: &mut Vec<char>, min: &Vec<char>, max: &Option<Vec<char>>, lowest: &Vec<char>)
    ensures
        final(out)@ == old(out)@ + run_text((min@, opt_chars(*max)), lowest@),
{
    match max {
        Some(mx) => {
            if same_text(mx, min) {
                push_all(out, min);
            } else if same_text(min, lowest) {
                out.push('<');
                out.push('=');
                push_all(out, mx);
            } else {
                push_all(out, min);
                out.push(' ');
                out.push('-');
                out.push(' ');
                push_all(out, mx);
            }
        },
        None => {
            if same_text(min, lowest) {
                out.push('*');
            } else {
                out.push('>');
                out.push('=');
                push_all(out, min);
            }
        },
    }
    assert(out@ =~= old(out)@ + run_text((min@, opt_chars(*max)), lowest@));
}

/// Whether every listed text gets the same answer from the two ranges
/// (a text that does not parse satisfies neither).
pub open spec fn agrees_on(vs: Seq<Seq<char>>, a: Seq<char>, b: Seq<char>, o: Options) -> bool {
    forall|k: int|
        0 <= k < vs.len() ==> crate::satisfies_spec(#[trigger] vs[k], a, o) == crate::satisfies_spec(
            vs[k],
            b,
            o,
        )
}

/// What simplifying answers: the proposal for the versions in sorted
/// order when it admits exactly the listed versions the range admits,
/// else the range as written.
pub open spec fn simplify_result(vs: Seq<Seq<char>>, ts: Seq<Seq<char>>, range: Seq<char>, o: Options) -> Seq<char> {
    if agrees_on(vs, simplified(ts, range, o), range, o) {
        simplified(ts, range, o)
    } else {
        range
    }
}

/// Rewrite a range as the shortest equivalent over a known version set:
/// the contiguous runs of satisfying versions (in precedence order),
/// unless the range as written is no longer; `<0.0.0-0` when nothing
/// satisfies. Where the runs would admit a different set of the listed
/// versions than the range (a run holding a prerelease that no
/// comparator of the runs anchors), the range is kept as written.
pub fn simplify_range<O: IntoOptions>(versions: &[&str], range: &str, options: O) -> (r: Option<
    String,
>)
    ensures
        exists|ix: Seq<int>|
            stably_sorted(ix, crate::strs_view(versions@), options.as_options()) && r is Some
                && r->Some_0@ == simplify_result(
                crate::strs_view(versions@),
                at_indices(crate::strs_view(versions@), ix),
                range@,
                options.as_options(),
            ),
        r is Some && agrees_on(crate::strs_view(versions@), r->Some_0@, range@, options.as_options()),
{
    let o = options.into_options();
    let sorted = sorted_versions(versions, o);
    let ghost vs = crate::strs_view(versions@);
    let ghost ix = sorted@.map_values(|e: (usize, SemVer)| e.0 as int);
    let ghost ts = at_indices(vs, ix);
    let rg = crate::range::Range::parse(range, o);
    let mut runs: Vec<(Vec<char>, Option<Vec<char>>)> = Vec::new();
    let mut first: Option<Vec<char>> = None;
    let mut prev: Option<Vec<char>> = None;
    let mut k: usize = 0;
    assert(runs_view(runs@) =~= Seq::<(Seq<char>, Option<Seq<char>>)>::empty());
    while k < sorted.len()
        invariant
            k <= sorted@.len(),
            vs == crate::strs_view(versions@),
            ix == sorted@.map_values(|e: (usize, SemVer)| e.0 as int),
            ts == at_indices(vs, ix),
            forall|p: int|
                0 <= p < sorted@.len() ==> parsed(vs[#[trigger] sorted@[p].0 as int], o) == Some(
                    sorted@[p].1@,
                ),
            stably_sorted(ix, vs, o),
            match rg {
                Ok(r) => range_parse_is(range@, o, r@) && r.opts() == o,
                Err(_) => crate::range::range_parse(range@, o) is Err,
            },
            (RunState { runs: runs_view(runs@), first: opt_chars(first), prev: opt_chars(prev) })
                == run_fold(ts.take(k as int), range@, o),
            first is Some <==> prev is Some,
        decreases sorted@.len() - k,
    {
        let idx = sorted[k].0;
        assert(ix[k as int] == idx as int);
        assert(0 <= ix[k as int] < vs.len());
        assert(ts[k as int] == vs[idx as int]);
        assert(vs[idx as int] == versions@[idx as int]@);
        let text = chars_of(versions[idx]);
        let sat = match &rg {
            Ok(r) => r.test(&sorted[k].1),
            Err(_) => false,
        };
        assert(sat == crate::satisfies_spec(ts[k as int], range@, o));
        assert(ts.take(k + 1).drop_last() =~= ts.take(k as int));
        assert(ts.take(k + 1).last() == ts[k as int]);
        let ghost before = runs_view(runs@);
        if sat {
            if first.is_none() {
                first = Some(copy_chars(&text));
            }
            prev = Some(text);
        } else {
            match prev {
                Some(pv) => {
                    let f = match first {
                        Some(f) => f,
                        None => Vec::new(),
                    };
                    let ghost fv = f@;
                    let ghost pvv = pv@;
                    runs.push((f, Some(pv)));
                    assert(runs_view(runs@) =~= before.push((fv, Some(pvv))));
                    first = None;
                    prev = None;
                },
                None => {},
            }
        }
        k = k + 1;
    }
    assert(ts.take(sorted@.len() as int) =~= ts);
    match first {
        Some(f) => {
            let ghost before = runs_view(runs@);
            let ghost fv = f@;
            runs.push((f, None));
            assert(runs_view(runs@) =~= before.push((fv, None)));
        },
        None => {},
    }
    let ghost rv = runs_view(runs@);
    assert(rv == runs_of(ts, range@, o));
    let lowest = if sorted.len() > 0 {
        let idx = sorted[0].0;
        assert(ix[0] == idx as int);
        assert(ts[0] == vs[idx as int]);
        assert(vs[idx as int] == versions@[idx as int]@);
        chars_of(versions[idx])
    } else {
        Vec::new()
    };
    assert(lowest@ == (if ts.len() > 0 {
        ts[0]
    } else {
        Seq::empty()
    }));
    let ghost texts = rv.map_values(|r: (Seq<char>, Option<Seq<char>>)| run_text(r, lowest@));
    let mut out: Vec<char> = Vec::new();
    let mut m: usize = 0;
    while m < runs.len()
        invariant
            m <= runs@.len(),
            rv == runs_view(runs@),
            texts == rv.map_values(|r: (Seq<char>, Option<Seq<char>>)| run_text(r, lowest@)),
            out@ == crate::range::join_with(texts.take(m as int), seq![' ', '|', '|', ' ']),
        decreases runs@.len() - m,
    {
        if m > 0 {
            out.push(' ');
            out.push('|');
            out.push('|');
            out.push(' ');
        }
        push_run_text(&mut out, &runs[m].0, &runs[m].1, &lowest);
        proof {
            assert(texts[m as int] == run_text(rv[m as int], lowest@));
            assert(rv[m as int] == (runs@[m as int].0@, opt_chars(runs@[m as int].1)));
            let t = texts.take(m + 1);
            assert(t.drop_last() =~= texts.take(m as int));
            assert(out@ =~= crate::range::join_with(t, seq![' ', '|', '|', ' ']));
        }
        m = m + 1;
    }
    assert(texts.take(m as int) =~= texts);
    assert(out@ == runs_text(rv, lowest@));
    let result = if out.len() == 0 {
        let mut e: Vec<char> = Vec::new();
        e.push('<');
        e.push('0');
        e.push('.');
        e.push('0');
        e.push('.');
        e.push('0');
        e.push('-');
        e.push('0');
        assert(e@ =~= seq!['<', '0', '.', '0', '.', '0', '-', '0']);
        string_of(&e)
    } else {
        let rc = chars_of(range);
        if crate::text::byte_len(&out) < crate::text::byte_len(&rc) {
            string_of(&out)
        } else {
            string_of(&rc)
        }
    };
    assert(result@ == simplified(ts, range@, o));
    // Keep the runs only where they admit exactly the listed versions the
    // range admits; otherwise the range itself is the answer.
    let mut agree = true;
    let mut i: usize = 0;
    while i < versions.len()
        invariant
            i <= versions@.len(),
            vs == crate::strs_view(versions@),
            agree <==> forall|k: int|
                0 <= k < i ==> crate::satisfies_spec(#[trigger] vs[k], result@, o)
                    == crate::satisfies_spec(vs[k], range@, o),
        decreases versions@.len() - i,
    {
        assert(vs[i as int] == versions@[i as int]@);
        if crate::satisfies(versions[i], result.as_str(), o) != crate::satisfies(versions[i], range, o) {
            agree = false;
        }
        i = i + 1;
    }
    if agree {
        Some(result)
    } else {
        Some(string_of(&chars_of(range)))
    }
}

/// The parse of a range text is `sets`.
pub open spec fn range_parse_is(range: Seq<char>, o: Options, sets: Seq<Seq<crate::comparator::CompView>>) -> bool {
    crate::range::range_parse(range, o) == Ok::<
        Seq<Seq<crate::comparator::CompView>>,
        crate::range::RangeErr,
    >(sets)
}

/// When no version satisfies the range, simplifying proposes `<0.0.0-0`,
/// the range that nothing satisfies, rather than an empty range (which
/// would admit everything).
pub proof fn lemma_simplify_nothing(
    versions: Seq<Seq<char>>,
    ix: Seq<int>,
    range: Seq<char>,
    o: Options,
)
    requires
        stably_sorted(ix, versions, o),
        forall|k: int|
            0 <= k < versions.len() ==> !crate::satisfies_spec(#[trigger] versions[k], range, o),
    ensures
        simplified(at_indices(versions, ix), range, o) == seq!['<', '0', '.', '0', '.', '0', '-', '0'],
{
    let ts = at_indices(versions, ix);
    assert forall|k: int| 0 <= k < ts.len() implies !crate::satisfies_spec(#[trigger] ts[k], range, o) by {
        assert(ts[k] == versions[ix[k]]);
    }
    lemma_run_fold_nothing(ts, range, o);
}

proof fn lemma_run_fold_nothing(ts: Seq<Seq<char>>, range: Seq<char>, o: Options)
    requires
        forall|k: int| 0 <= k < ts.len() ==> !crate::satisfies_spec(#[trigger] ts[k], range, o),
    ensures
        run_fold(ts, range, o) == (RunState { runs: Seq::empty(), first: None, prev: None }),
    decreases ts.len(),
{
    if ts.len() > 0 {
        assert forall|k: int| 0 <= k < ts.drop_last().len() implies !crate::satisfies_spec(
            #[trigger] ts.drop_last()[k],
            range,
            o,
        ) by {
            assert(ts.drop_last()[k] == ts[k]);
        }
        lemma_run_fold_nothing(ts.drop_last(), range, o);
        assert(!crate::satisfies_spec(ts[ts.len() - 1], range, o));
    }
}

// ── the runs, by position ───────────────────────────────────────────────
/// The runs by position in the sorted list: the closed runs with their
/// first and last position, and the first position of the run in
/// progress.
pub struct PosState {
    pub runs: Seq<(int, Option<int>)>,
    pub first: Option<int>,
}

/// The runs by position after the versions `ts`.
pub open spec fn pos_fold(ts: Seq<Seq<char>>, range: Seq<char>, o: Options) -> PosState
    decreases ts.len(),
{
    if ts.len() == 0 {
        PosState { runs: Seq::empty(), first: None }
    } else {
        let st = pos_fold(ts.drop_last(), range, o);
        let p = ts.len() - 1;
        if crate::satisfies_spec(ts.last(), range, o) {
            PosState {
                first: if st.first is None {
                    Some(p)
                } else {
                    st.first
                },
                ..st
            }
        } else if st.first is Some {
            PosState { runs: st.runs.push((st.first->Some_0, Some(p - 1))), first: None }
        } else {
            st
        }
    }
}

/// The runs by position; the last one, if still open, reaches the end.
pub open spec fn pos_runs(ts: Seq<Seq<char>>, range: Seq<char>, o: Options) -> Seq<
    (int, Option<int>),
> {
    let st = pos_fold(ts, range, o);
    if st.first is Some {
        st.runs.push((st.first->Some_0, None))
    } else {
        st.runs
    }
}

/// The versions at a run's positions.
pub open spec fn run_at(ts: Seq<Seq<char>>, r: (int, Option<int>)) -> (Seq<char>, Option<Seq<char>>) {
    (
        ts[r.0],
        match r.1 {
            Some(b) => Some(ts[b]),
            None => None,
        },
    )
}

/// A run holds position `p`.
pub open spec fn covers(r: (int, Option<int>), p: int) -> bool {
    r.0 <= p && (r.1 matches Some(b) ==> p <= b)
}

proof fn lemma_pos_fold(ts: Seq<Seq<char>>, range: Seq<char>, o: Options)
    ensures
        ({
            let st = run_fold(ts, range, o);
            let ps = pos_fold(ts, range, o);
            &&& st.runs == ps.runs.map_values(|r: (int, Option<int>)| run_at(ts, r))
            &&& (ps.first is Some) == (st.first is Some)
            &&& (ps.first is Some) == (st.prev is Some)
            &&& ps.first is Some ==> 0 <= ps.first->Some_0 < ts.len() && st.first == Some(
                ts[ps.first->Some_0],
            ) && st.prev == Some(ts[ts.len() - 1])
            &&& forall|k: int|
                0 <= k < ps.runs.len() ==> 0 <= (#[trigger] ps.runs[k]).0 && ps.runs[k].1 is Some
                    && ps.runs[k].0 <= ps.runs[k].1->Some_0 < ts.len()
            &&& forall|q: int|
                0 <= q < ts.len() ==> (crate::satisfies_spec(#[trigger] ts[q], range, o) <==> ((
                exists|k: int| 0 <= k < ps.runs.len() && covers(ps.runs[k], q)) || (
                ps.first matches Some(f) && f <= q)))
        }),
    decreases ts.len(),
{
    if ts.len() > 0 {
        let init = ts.drop_last();
        lemma_pos_fold(init, range, o);
        let st0 = run_fold(init, range, o);
        let ps0 = pos_fold(init, range, o);
        let st = run_fold(ts, range, o);
        let ps = pos_fold(ts, range, o);
        let p = ts.len() - 1;
        let sat = crate::satisfies_spec(ts.last(), range, o);
        assert(init.map_values(|x: Seq<char>| x) =~= init);
        // The runs so far read the same over `ts` as over `init`.
        assert(ps0.runs.map_values(|r: (int, Option<int>)| run_at(ts, r)) =~= ps0.runs.map_values(
            |r: (int, Option<int>)| run_at(init, r),
        )) by {
            assert forall|k: int| 0 <= k < ps0.runs.len() implies run_at(ts, #[trigger] ps0.runs[k])
                == run_at(init, ps0.runs[k]) by {
                let b = ps0.runs[k].1->Some_0;
                assert(ts[ps0.runs[k].0] == init[ps0.runs[k].0]);
                assert(ts[b] == init[b]);
            }
        }
        if !sat && ps0.first is Some {
            let f = ps0.first->Some_0;
            assert(ts[f] == init[f]);
            assert(ts[p - 1] == init[p - 1]);
            assert(ps.runs.map_values(|r: (int, Option<int>)| run_at(ts, r)) =~= ps0.runs.map_values(
                |r: (int, Option<int>)| run_at(ts, r),
            ).push(run_at(ts, (f, Some(p - 1)))));
        }
        if sat && ps0.first is Some {
            let f = ps0.first->Some_0;
            assert(ts[f] == init[f]);
        }
        assert forall|q: int|
            0 <= q < ts.len() implies (crate::satisfies_spec(#[trigger] ts[q], range, o) <==> ((
        exists|k: int| 0 <= k < ps.runs.len() && covers(ps.runs[k], q)) || (ps.first matches Some(f)
            && f <= q))) by {
            if q < p {
                assert(ts[q] == init[q]);
                assert(crate::satisfies_spec(init[q], range, o) <==> ((exists|k: int|
                    0 <= k < ps0.runs.len() && covers(ps0.runs[k], q)) || (ps0.first matches Some(f)
                    && f <= q)));
                if !sat && ps0.first is Some {
                    let f = ps0.first->Some_0;
                    if ps0.first matches Some(f2) && f2 <= q {
                        assert(covers(ps.runs[ps0.runs.len() as int], q));
                    }
                    if exists|k: int| 0 <= k < ps.runs.len() && covers(ps.runs[k], q) {
                        let k = choose|k: int| 0 <= k < ps.runs.len() && covers(ps.runs[k], q);
                        if k < ps0.runs.len() {
                            assert(ps.runs[k] == ps0.runs[k]);
                        }
                    }
                    if exists|k: int| 0 <= k < ps0.runs.len() && covers(ps0.runs[k], q) {
                        let k = choose|k: int| 0 <= k < ps0.runs.len() && covers(ps0.runs[k], q);
                        assert(ps.runs[k] == ps0.runs[k]);
                    }
                }
            } else {
                assert(q == p);
                assert(ts[q] == ts.last());
                assert forall|k: int| 0 <= k < ps0.runs.len() implies !covers(#[trigger] ps0.runs[k], q) by {
                }
                if !sat && ps0.first is Some {
                    assert forall|k: int| 0 <= k < ps.runs.len() implies !covers(#[trigger] ps.runs[k], q) by {
                        if k < ps0.runs.len() {
                            assert(ps.runs[k] == ps0.runs[k]);
                        }
                    }
                }
            }
        }
    }
}

/// The runs `simplify_range` writes out are the versions at the positions
/// `pos_runs` gives.
pub proof fn lemma_runs_at_positions(ts: Seq<Seq<char>>, range: Seq<char>, o: Options)
    ensures
        runs_of(ts, range, o) == pos_runs(ts, range, o).map_values(
            |r: (int, Option<int>)| run_at(ts, r),
        ),
{
    lemma_pos_fold(ts, range, o);
    let ps = pos_fold(ts, range, o);
    if ps.first is Some {
        assert(pos_runs(ts, range, o).map_values(|r: (int, Option<int>)| run_at(ts, r))
            =~= ps.runs.map_values(|r: (int, Option<int>)| run_at(ts, r)).push(
            run_at(ts, (ps.first->Some_0, None)),
        ));
    }
}

/// A version of the sorted list satisfies the range exactly when its
/// position lies in one of the runs.
pub proof fn lemma_runs_cover(ts: Seq<Seq<char>>, range: Seq<char>, o: Options, p: int)
    requires
        0 <= p < ts.len(),
    ensures
        crate::satisfies_spec(ts[p], range, o) <==> exists|k: int|
            0 <= k < pos_runs(ts, range, o).len() && covers(
                #[trigger] pos_runs(ts, range, o)[k],
                p,
            ),
{
    lemma_pos_fold(ts, range, o);
    let ps = pos_fold(ts, range, o);
    let pr = pos_runs(ts, range, o);
    assert(crate::satisfies_spec(ts[p], range, o) <==> ((exists|k: int|
        0 <= k < ps.runs.len() && covers(ps.runs[k], p)) || (ps.first matches Some(f) && f <= p)));
    if exists|k: int| 0 <= k < ps.runs.len() && covers(ps.runs[k], p) {
        let k = choose|k: int| 0 <= k < ps.runs.len() && covers(ps.runs[k], p);
        assert(pr[k] == ps.runs[k]);
    }
    if ps.first matches Some(f) && f <= p {
        assert(covers(pr[ps.runs.len() as int], p));
    }
    if exists|k: int| 0 <= k < pr.len() && covers(pr[k], p) {
        let k = choose|k: int| 0 <= k < pr.len() && covers(pr[k], p);
        if k < ps.runs.len() {
            assert(pr[k] == ps.runs[k]);
        }
    }
}

/// Each run by position lies within the list, its first position at or
/// before its last.
pub proof fn lemma_pos_runs_bounds(ts: Seq<Seq<char>>, range: Seq<char>, o: Options)
    ensures
        forall|k: int|
            0 <= k < pos_runs(ts, range, o).len() ==> 0 <= (#[trigger] pos_runs(ts, range, o)[k]).0
                < ts.len() && (pos_runs(ts, range, o)[k].1 is Some ==> pos_runs(ts, range, o)[k].0
                <= pos_runs(ts, range, o)[k].1->Some_0 < ts.len()),
{
    lemma_pos_fold(ts, range, o);
    let ps = pos_fold(ts, range, o);
    let pr = pos_runs(ts, range, o);
    assert forall|k: int| 0 <= k < pr.len() implies 0 <= (#[trigger] pr[k]).0 < ts.len() && (
    pr[k].1 is Some ==> pr[k].0 <= pr[k].1->Some_0 < ts.len()) by {
        if k < ps.runs.len() {
            assert(pr[k] == ps.runs[k]);
        }
    }
}


// ── what `diff` and `cmp` answer ────────────────────────────────────────
/// Two versions get a release kind exactly when they differ in
/// precedence, and the kind does not depend on which is given first.
pub proof fn lemma_diff_symmetric(x: VersionView, y: VersionView)
    ensures
        diff_spec(x, y) is None <==> ver_order(x, y) == 0,
        diff_spec(x, y) == diff_spec(y, x),
{
    crate::semver::lemma_ver_order_antisym(x, y);
}

/// The kind `diff` names. When the higher version is a prerelease, it is
/// the highest number in which the two differ, prefixed with `pre`
/// (`prerelease` when the numbers agree). Between two releases it is the
/// highest number in which they differ. From a prerelease up to a
/// release it is `major` when the majors differ or the prerelease was of
/// an `x.0.0`; otherwise `minor` when the minors differ or the
/// prerelease was of an `x.y.0` with the same numbers; otherwise `patch`.
pub proof fn lemma_diff_kind(x: VersionView, y: VersionView)
    requires
        ver_order(x, y) != 0,
    ensures
        ({
            let h = if ver_order(x, y) > 0 {
                x
            } else {
                y
            };
            let l = if ver_order(x, y) > 0 {
                y
            } else {
                x
            };
            &&& h.pre.len() > 0 ==> diff_spec(x, y) == Some(
                if x.major != y.major {
                    "premajor"@
                } else if x.minor != y.minor {
                    "preminor"@
                } else if x.patch != y.patch {
                    "prepatch"@
                } else {
                    "prerelease"@
                },
            )
            &&& (h.pre.len() == 0 && l.pre.len() == 0) ==> diff_spec(x, y) == Some(
                if x.major != y.major {
                    "major"@
                } else if x.minor != y.minor {
                    "minor"@
                } else {
                    "patch"@
                },
            )
            &&& (h.pre.len() == 0 && l.pre.len() > 0) ==> diff_spec(x, y) == Some(
                if x.major != y.major || (l.minor == 0 && l.patch == 0) {
                    "major"@
                } else if x.minor != y.minor || (x.patch == y.patch && l.patch == 0) {
                    "minor"@
                } else {
                    "patch"@
                },
            )
        }),
{
    crate::semver::lemma_ver_order_antisym(x, y);
    reveal_strlit("pre");
    reveal_strlit("major");
    reveal_strlit("minor");
    reveal_strlit("patch");
    reveal_strlit("premajor");
    reveal_strlit("preminor");
    reveal_strlit("prepatch");
    assert("pre"@ + "major"@ =~= "premajor"@);
    assert("pre"@ + "minor"@ =~= "preminor"@);
    assert("pre"@ + "patch"@ =~= "prepatch"@);
    assert(Seq::<char>::empty() + "major"@ =~= "major"@);
    assert(Seq::<char>::empty() + "minor"@ =~= "minor"@);
    assert(Seq::<char>::empty() + "patch"@ =~= "patch"@);
}

/// Each operator `cmp` takes agrees with the comparison of the same
/// name: `"<"` with `lt` (precedence below), `"<="` with `lte`, `">"`
/// with `gt`, `">="` with `gte`, `""`, `"="`, `"=="` and `"==="` with `eq`,
/// `"!="` and `"!=="` with `neq`; no other text is an operator.
pub proof fn lemma_cmp_operators(c: i8)
    ensures
        op_holds("<"@, c) == Some(c < 0),
        op_holds("<="@, c) == Some(c <= 0),
        op_holds(">"@, c) == Some(c > 0),
        op_holds(">="@, c) == Some(c >= 0),
        op_holds(""@, c) == Some(c == 0),
        op_holds("="@, c) == Some(c == 0),
        op_holds("=="@, c) == Some(c == 0),
        op_holds("==="@, c) == Some(c == 0),
        op_holds("!="@, c) == Some(c != 0),
        op_holds("!=="@, c) == Some(c != 0),
        forall|op: Seq<char>|
            #[trigger] op_holds(op, c) is Some ==> (op == ""@ || op == "="@ || op == "=="@ || op
                == "==="@ || op == "!="@ || op == "!=="@ || op == ">"@ || op == ">="@ || op == "<"@
                || op == "<="@),
{
    reveal_strlit("<");
    reveal_strlit("<=");
    reveal_strlit(">");
    reveal_strlit(">=");
    reveal_strlit("");
    reveal_strlit("=");
    reveal_strlit("==");
    reveal_strlit("===");
    reveal_strlit("!=");
    reveal_strlit("!==");
    assert(""@.len() == 0 && "<"@.len() == 1 && ">"@.len() == 1 && "="@.len() == 1);
    assert("<="@.len() == 2 && ">="@.len() == 2 && "=="@.len() == 2 && "!="@.len() == 2);
    assert("==="@.len() == 3 && "!=="@.len() == 3);
    assert("<"@ != ""@ && "<"@ != "=="@ && "<"@ != "==="@ && "<"@ != "!="@ && "<"@ != "!=="@ && "<"@ != ">="@);
    assert("<="@ != ""@ && "<="@ != "="@ && "<="@ != "==="@ && "<="@ != "!=="@ && "<="@ != ">"@);
    assert(">"@ != ""@ && ">"@ != "=="@ && ">"@ != "==="@ && ">"@ != "!="@ && ">"@ != "!=="@);
    assert(">="@ != ""@ && ">="@ != "="@ && ">="@ != "==="@ && ">="@ != "!=="@ && ">="@ != ">"@);
    assert("<"@[0] != "="@[0] && "<"@[0] != ">"@[0]);
    assert("<"@ != "="@ && "<"@ != ">"@);
    assert("<="@[0] != "=="@[0] && "<="@[0] != "!="@[0] && "<="@[0] != ">="@[0]);
    assert("<="@ != "=="@ && "<="@ != "!="@ && "<="@ != ">="@);
    assert("!=="@[0] != "==="@[0]);
    assert("!=="@ != ""@ && "!=="@ != "="@ && "!=="@ != "=="@ && "!=="@ != "==="@);
    assert("!="@[0] != "=="@[0]);
    assert("!="@ != ""@ && "!="@ != "="@ && "!="@ != "=="@ && "!="@ != "==="@);
    assert(">"@[0] != "="@[0]);
    assert(">"@ != "="@);
    assert(">="@[0] != "=="@[0] && ">="@[0] != "!="@[0]);
    assert(">="@ != "=="@ && ">="@ != "!="@);
}

/// The operators relate as an order does, whatever the two versions:
/// every version is `"<="`, `">="` and `"=="` itself and not `"<"` or
/// `">"`; `"<="` holds exactly when `"<"` or `"=="` does, and exactly
/// when `">"` does not; `"<="` of `(x, y)` is `">="` of `(y, x)`, and
/// `"<"` of `(x, y)` is `">"` of `(y, x)`.
pub proof fn lemma_cmp_order(x: VersionView, y: VersionView)
    ensures
        op_holds("<="@, ver_order(x, x)) == Some(true),
        op_holds(">="@, ver_order(x, x)) == Some(true),
        op_holds("=="@, ver_order(x, x)) == Some(true),
        op_holds("<"@, ver_order(x, x)) == Some(false),
        op_holds(">"@, ver_order(x, x)) == Some(false),
        op_holds("<="@, ver_order(x, y))->Some_0 == (op_holds("<"@, ver_order(x, y))->Some_0
            || op_holds("=="@, ver_order(x, y))->Some_0),
        op_holds("<="@, ver_order(x, y))->Some_0 == !op_holds(">"@, ver_order(x, y))->Some_0,
        op_holds("<="@, ver_order(x, y)) == op_holds(">="@, ver_order(y, x)),
        op_holds("<"@, ver_order(x, y)) == op_holds(">"@, ver_order(y, x)),
        op_holds("!="@, ver_order(x, y))->Some_0 == !op_holds("=="@, ver_order(x, y))->Some_0,
{
    crate::semver::lemma_ver_order_antisym(x, y);
    crate::semver::lemma_ver_order_antisym(x, x);
    lemma_cmp_operators(ver_order(x, y));
    lemma_cmp_operators(ver_order(y, x));
    lemma_cmp_operators(ver_order(x, x));
}

} // verus!
