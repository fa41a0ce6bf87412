//! Versions: `major.minor.patch[-prerelease][+build]`, their precedence,
//! their canonical rendering and the scanner that reads them.
use crate::constants::{IntoOptions, Options, MAX_LENGTH, MAX_SAFE_INTEGER};
use crate::error::{Error, Result};
use crate::identifiers::{
    ident_from, ident_of, ident_text, ids_view, lemma_list_order_antisym, lemma_list_order_trans,
    list_order, list_order_exec, ordering_of, push_ident, to_ordering, u64_order, IdentView,
    Identifier,
};
use crate::text::{
    all_digits, chars_of, chars_of_string, dec_value, digit_run_end, has_leading_zero,
    ident_char, ident_run_end, is_alpha, is_ident_char, lemma_digit_run, lemma_ident_run,
    num_text, push_all, push_number, exceeds_bytes, fits_u64, read_number, scan_digits, scan_ident, slice, string_of, trim,
    trim_start, trim_start_vec, trim_vec, alpha_char, };
use std::cmp::Ordering;
use vstd::prelude::*;
use vstd::utf8::encode_utf8;

verus! {

/// A parsed semantic version: `major.minor.patch[-prerelease][+build]`.
#[derive(Debug, Clone, PartialEq, Eq)]
pub struct SemVer {
    /// The `X` in `X.Y.Z`.
    pub major: u64,
    /// The `Y` in `X.Y.Z`.
    pub minor: u64,
    /// The `Z` in `X.Y.Z`.
    pub patch: u64,
    /// The dot-separated identifiers after `-`; empty for a release.
    pub prerelease: Vec<Identifier>,
    /// Build metadata: carried through parsing, ignored by precedence.
    pub build: Vec<String>,
    /// The options it was parsed with.
    pub options: Options,
}

/// What a version is, as plain values.
pub struct VersionView {
    pub major: u64,
    pub minor: u64,
    pub patch: u64,
    pub pre: Seq<IdentView>,
    pub build: Seq<Seq<char>>,
}

pub open spec fn texts_view(s: Seq<String>) -> Seq<Seq<char>> {
    s.map_values(|x: String| x@)
}

impl View for SemVer {
    type V = VersionView;

    open spec fn view(&self) -> VersionView {
        VersionView {
            major: self.major,
            minor: self.minor,
            patch: self.patch,
            pre: ids_view(self.prerelease@),
            build: texts_view(self.build@),
        }
    }
}

// ── precedence ──────────────────────────────────────────────────────────
pub open spec fn main_order(a: VersionView, b: VersionView) -> i8 {
    if u64_order(a.major, b.major) != 0 {
        u64_order(a.major, b.major)
    } else if u64_order(a.minor, b.minor) != 0 {
        u64_order(a.minor, b.minor)
    } else {
        u64_order(a.patch, b.patch)
    }
}

/// Having no prerelease outranks having one; otherwise the identifier
/// lists decide.
pub open spec fn pre_order(a: VersionView, b: VersionView) -> i8 {
    if a.pre.len() == 0 && b.pre.len() == 0 {
        0
    } else if b.pre.len() == 0 {
        -1i8
    } else if a.pre.len() == 0 {
        1
    } else {
        list_order(a.pre, b.pre)
    }
}

/// Full precedence. Build metadata plays no part.
pub open spec fn ver_order(a: VersionView, b: VersionView) -> i8 {
    if main_order(a, b) != 0 {
        main_order(a, b)
    } else {
        pre_order(a, b)
    }
}

/// Build identifiers read the way `Identifier::parse` reads them.
pub open spec fn build_ids(b: Seq<Seq<char>>) -> Seq<IdentView> {
    b.map_values(|t: Seq<char>| ident_of(t))
}

/// Precedence, with build metadata breaking ties.
pub open spec fn build_order(a: VersionView, b: VersionView) -> i8 {
    if ver_order(a, b) != 0 {
        ver_order(a, b)
    } else {
        list_order(build_ids(a.build), build_ids(b.build))
    }
}

// ── rendering ───────────────────────────────────────────────────────────
pub open spec fn join_ids(ids: Seq<IdentView>) -> Seq<char>
    decreases ids.len(),
{
    if ids.len() == 0 {
        Seq::empty()
    } else if ids.len() == 1 {
        ident_text(ids[0])
    } else {
        join_ids(ids.drop_last()).push('.') + ident_text(ids.last())
    }
}

pub open spec fn join_texts(ts: Seq<Seq<char>>) -> Seq<char>
    decreases ts.len(),
{
    if ts.len() == 0 {
        Seq::empty()
    } else if ts.len() == 1 {
        ts[0]
    } else {
        join_texts(ts.drop_last()).push('.') + ts.last()
    }
}

/// `major.minor.patch`.
pub open spec fn main_text(major: u64, minor: u64, patch: u64) -> Seq<char> {
    num_text(major as nat).push('.') + num_text(minor as nat).push('.') + num_text(patch as nat)
}

/// The canonical rendering: the numbers plus `-prerelease` when present.
pub open spec fn render(v: VersionView) -> Seq<char> {
    if v.pre.len() == 0 {
        main_text(v.major, v.minor, v.patch)
    } else {
        main_text(v.major, v.minor, v.patch).push('-') + join_ids(v.pre)
    }
}

/// The rendering with `+build` when present.
pub open spec fn render_full(v: VersionView) -> Seq<char> {
    if v.build.len() == 0 {
        render(v)
    } else {
        render(v).push('+') + join_texts(v.build)
    }
}

/// Append `major.minor.patch`.
pub fn push_main(out: &mut Vec<char>, major: u64, minor: u64, patch: u64)
    ensures
        final(out)@ == old(out)@ + main_text(major, minor, patch),
{
    push_number(out, major);
    out.push('.');
    push_number(out, minor);
    out.push('.');
    push_number(out, patch);
    assert(out@ =~= old(out)@ + main_text(major, minor, patch));
}

/// Append identifiers joined by `.`.
pub fn push_ids(out: &mut Vec<char>, ids: &Vec<Identifier>)
    ensures
        final(out)@ == old(out)@ + join_ids(ids_view(ids@)),
{
    let ghost start = out@;
    let mut i: usize = 0;
    while i < ids.len()
        invariant
            i <= ids@.len(),
            out@ == start + join_ids(ids_view(ids@.take(i as int))),
        decreases ids@.len() - i,
    {
        let ghost before = out@;
        if i > 0 {
            out.push('.');
        }
        push_ident(out, &ids[i]);
        proof {
            let t = ids_view(ids@.take(i + 1));
            assert(t.drop_last() =~= ids_view(ids@.take(i as int)));
            assert(t.last() == ids@[i as int]@);
            if i == 0 {
                assert(ids_view(ids@.take(0)) =~= Seq::<IdentView>::empty());
            }
            assert(out@ =~= start + join_ids(t));
        }
        i = i + 1;
    }
    assert(ids@.take(ids@.len() as int) =~= ids@);
}

/// Append texts joined by `.`.
pub fn push_texts(out: &mut Vec<char>, ts: &Vec<String>)
    ensures
        final(out)@ == old(out)@ + join_texts(texts_view(ts@)),
{
    let ghost start = out@;
    let mut i: usize = 0;
    while i < ts.len()
        invariant
            i <= ts@.len(),
            out@ == start + join_texts(texts_view(ts@.take(i as int))),
        decreases ts@.len() - i,
    {
        if i > 0 {
            out.push('.');
        }
        let t = chars_of_string(&ts[i]);
        push_all(out, &t);
        proof {
            let v = texts_view(ts@.take(i + 1));
            assert(v.drop_last() =~= texts_view(ts@.take(i as int)));
            assert(v.last() == ts@[i as int]@);
            if i == 0 {
                assert(texts_view(ts@.take(0)) =~= Seq::<Seq<char>>::empty());
            }
            assert(out@ =~= start + join_texts(v));
        }
        i = i + 1;
    }
    assert(ts@.take(ts@.len() as int) =~= ts@);
}

impl SemVer {
    /// The options this version was parsed with.
    pub open spec fn opts(&self) -> Options {
        self.options
    }

    /// Assemble a version from its parts.
    pub(crate) fn from_parts(
        major: u64,
        minor: u64,
        patch: u64,
        prerelease: Vec<Identifier>,
        build: Vec<String>,
        options: Options,
    ) -> (r: SemVer)
        ensures
            r.major == major,
            r.minor == minor,
            r.patch == patch,
            r.prerelease == prerelease,
            r.build == build,
            r.opts() == options,
    {
        SemVer { major, minor, patch, prerelease, build, options }
    }

    /// A copy of this version.
    pub fn copy(&self) -> (r: SemVer)
        ensures
            r@ == self@,
            r.opts() == self.opts(),
    {
        let mut pre: Vec<Identifier> = Vec::new();
        let mut i: usize = 0;
        while i < self.prerelease.len()
            invariant
                i <= self.prerelease@.len(),
                ids_view(pre@) == ids_view(self.prerelease@.take(i as int)),
            decreases self.prerelease@.len() - i,
        {
            pre.push(self.prerelease[i].copy());
            proof {
                assert(ids_view(self.prerelease@.take(i + 1)) =~= ids_view(
                    self.prerelease@.take(i as int),
                ).push(self.prerelease@[i as int]@));
                assert(ids_view(pre@) =~= ids_view(self.prerelease@.take(i + 1)));
            }
            i = i + 1;
        }
        let mut build: Vec<String> = Vec::new();
        let mut j: usize = 0;
        while j < self.build.len()
            invariant
                j <= self.build@.len(),
                texts_view(build@) == texts_view(self.build@.take(j as int)),
            decreases self.build@.len() - j,
        {
            build.push(self.build[j].clone());
            proof {
                assert(texts_view(self.build@.take(j + 1)) =~= texts_view(
                    self.build@.take(j as int),
                ).push(self.build@[j as int]@));
                assert(texts_view(build@) =~= texts_view(self.build@.take(j + 1)));
            }
            j = j + 1;
        }
        proof {
            assert(self.prerelease@.take(self.prerelease@.len() as int) =~= self.prerelease@);
            assert(self.build@.take(self.build@.len() as int) =~= self.build@);
        }
        SemVer {
            major: self.major,
            minor: self.minor,
            patch: self.patch,
            prerelease: pre,
            build,
            options: self.options,
        }
    }

    /// The canonical rendering: `major.minor.patch` plus a prerelease tag
    /// when present. Build metadata is not included.
    pub fn version(&self) -> (r: String)
        ensures
            r@ == render(self@),
    {
        let mut out: Vec<char> = Vec::new();
        self.push_version(&mut out);
        string_of(&out)
    }

    /// Append the canonical rendering.
    pub fn push_version(&self, out: &mut Vec<char>)
        ensures
            final(out)@ == old(out)@ + render(self@),
    {
        push_main(out, self.major, self.minor, self.patch);
        if self.prerelease.len() > 0 {
            out.push('-');
            push_ids(out, &self.prerelease);
        }
        assert(out@ =~= old(out)@ + render(self@));
    }

    /// The full string including build metadata.
    pub fn to_string_with_build(&self) -> (r: String)
        ensures
            r@ == render_full(self@),
    {
        let mut out: Vec<char> = Vec::new();
        self.push_version(&mut out);
        if self.build.len() > 0 {
            out.push('+');
            push_texts(&mut out, &self.build);
        }
        assert(out@ =~= render_full(self@));
        string_of(&out)
    }

    /// The canonical rendering, as `Display` gives it.
    pub fn to_string(&self) -> (r: String)
        ensures
            r@ == render(self@),
    {
        self.version()
    }

    /// The parsing options this version was created with.
    pub fn options(&self) -> (o: Options)
        ensures
            o == self.opts(),
    {
        self.options
    }

    /// Whether this version has a prerelease tag.
    pub fn is_prerelease(&self) -> (r: bool)
        ensures
            r == (self@.pre.len() > 0),
    {
        self.prerelease.len() > 0
    }

    /// Compare only the numeric components, as -1, 0 or 1.
    pub fn main_order_exec(&self, other: &SemVer) -> (r: i8)
        ensures
            r == main_order(self@, other@),
    {
        if self.major != other.major {
            if self.major < other.major {
                -1
            } else {
                1
            }
        } else if self.minor != other.minor {
            if self.minor < other.minor {
                -1
            } else {
                1
            }
        } else if self.patch < other.patch {
            -1
        } else if self.patch == other.patch {
            0
        } else {
            1
        }
    }

    /// Compare only the prerelease tags, as -1, 0 or 1.
    pub fn pre_order_exec(&self, other: &SemVer) -> (r: i8)
        ensures
            r == pre_order(self@, other@),
    {
        let a = self.prerelease.len() == 0;
        let b = other.prerelease.len() == 0;
        if a && b {
            0
        } else if b {
            -1
        } else if a {
            1
        } else {
            list_order_exec(self.prerelease.as_slice(), other.prerelease.as_slice())
        }
    }

    /// Full precedence as -1, 0 or 1.
    pub fn order(&self, other: &SemVer) -> (r: i8)
        ensures
            r == ver_order(self@, other@),
    {
        let m = self.main_order_exec(other);
        if m != 0 {
            m
        } else {
            self.pre_order_exec(other)
        }
    }

    /// Precedence with build tie-break, as -1, 0 or 1.
    pub fn build_order_exec(&self, other: &SemVer) -> (r: i8)
        ensures
            r == build_order(self@, other@),
    {
        let c = self.order(other);
        if c != 0 {
            return c;
        }
        let a = build_identifiers(&self.build);
        let b = build_identifiers(&other.build);
        list_order_exec(a.as_slice(), b.as_slice())
    }

    /// Compare only the numeric components.
    pub fn compare_main(&self, other: &SemVer) -> (o: Ordering)
        ensures
            o == ordering_of(main_order(self@, other@)),
    {
        to_ordering(self.main_order_exec(other))
    }

    /// Compare only the prerelease tags: having none outranks having one.
    pub fn compare_pre(&self, other: &SemVer) -> (o: Ordering)
        ensures
            o == ordering_of(pre_order(self@, other@)),
    {
        to_ordering(self.pre_order_exec(other))
    }

    /// Full precedence comparison. Build metadata is ignored.
    pub fn compare(&self, other: &SemVer) -> (o: Ordering)
        ensures
            o == ordering_of(ver_order(self@, other@)),
    {
        to_ordering(self.order(other))
    }

    /// Compare including build metadata, for sorting.
    pub fn compare_build(&self, other: &SemVer) -> (o: Ordering)
        ensures
            o == ordering_of(build_order(self@, other@)),
    {
        to_ordering(self.build_order_exec(other))
    }
}

/// Build identifiers read as identifiers, for the build tie-break.
fn build_identifiers(build: &Vec<String>) -> (r: Vec<Identifier>)
    ensures
        ids_view(r@) == build_ids(texts_view(build@)),
{
    let mut r: Vec<Identifier> = Vec::new();
    let mut i: usize = 0;
    while i < build.len()
        invariant
            i <= build@.len(),
            ids_view(r@) == build_ids(texts_view(build@.take(i as int))),
        decreases build@.len() - i,
    {
        r.push(Identifier::parse(build[i].as_str()));
        proof {
            assert(build_ids(texts_view(build@.take(i + 1))) =~= build_ids(
                texts_view(build@.take(i as int)),
            ).push(ident_of(build@[i as int]@)));
            assert(ids_view(r@) =~= build_ids(texts_view(build@.take(i + 1))));
        }
        i = i + 1;
    }
    assert(build@.take(build@.len() as int) =~= build@);
    r
}

// ── precedence laws ─────────────────────────────────────────────────────
/// Precedence is reflexive, antisymmetric, and equal exactly when the
/// numbers and prerelease agree.
pub proof fn lemma_ver_order_antisym(a: VersionView, b: VersionView)
    ensures
        ver_order(a, b) == -ver_order(b, a),
        ver_order(a, b) == 0 <==> (a.major == b.major && a.minor == b.minor && a.patch == b.patch
            && a.pre == b.pre),
{
    lemma_list_order_antisym(a.pre, b.pre);
    if a.pre.len() == 0 && b.pre.len() == 0 {
        assert(a.pre =~= b.pre);
    }
}

/// Precedence is transitive.
pub proof fn lemma_ver_order_trans(a: VersionView, b: VersionView, c: VersionView)
    requires
        ver_order(a, b) <= 0,
        ver_order(b, c) <= 0,
    ensures
        ver_order(a, c) <= 0,
{
    lemma_ver_order_antisym(a, b);
    lemma_ver_order_antisym(b, c);
    lemma_ver_order_antisym(a, c);
    if main_order(a, b) == 0 && main_order(b, c) == 0 && a.pre.len() > 0 && b.pre.len() > 0
        && c.pre.len() > 0 {
        lemma_list_order_trans(a.pre, b.pre, c.pre);
    }
}


/// The build-aware order is antisymmetric.
pub proof fn lemma_build_order_antisym(a: VersionView, b: VersionView)
    ensures
        build_order(a, b) == -build_order(b, a),
{
    lemma_ver_order_antisym(a, b);
    lemma_list_order_antisym(build_ids(a.build), build_ids(b.build));
}

/// The build-aware order is transitive.
pub proof fn lemma_build_order_trans(a: VersionView, b: VersionView, c: VersionView)
    requires
        build_order(a, b) <= 0,
        build_order(b, c) <= 0,
    ensures
        build_order(a, c) <= 0,
{
    lemma_ver_order_antisym(a, b);
    lemma_ver_order_antisym(b, c);
    lemma_ver_order_antisym(a, c);
    lemma_ver_order_trans(a, b, c);
    lemma_list_order_antisym(build_ids(a.build), build_ids(b.build));
    if ver_order(a, b) == 0 && ver_order(b, c) == 0 {
        lemma_list_order_trans(build_ids(a.build), build_ids(b.build), build_ids(c.build));
    } else if ver_order(a, c) == 0 {
        // a and c share numbers and prerelease, so b sits between equals.
        lemma_ver_order_trans(c, a, b);
        lemma_ver_order_trans(b, c, a);
    }
}

// ── reading ─────────────────────────────────────────────────────────────
/// Number of leading `=` or `v` characters.
pub open spec fn eqv_lead(s: Seq<char>) -> nat
    decreases s.len(),
{
    if s.len() > 0 && (s[0] == '=' || s[0] == 'v') {
        1 + eqv_lead(s.drop_first())
    } else {
        0
    }
}

/// The text the scanner reads: trimmed, then in loose mode without any
/// leading `=`/`v` characters (and the whitespace after them), in strict
/// mode without one leading `v`.
pub open spec fn version_body(s: Seq<char>, loose: bool) -> Seq<char> {
    let t = trim(s);
    if loose {
        trim_start(t.skip(eqv_lead(t) as int))
    } else if t.len() > 0 && t[0] == 'v' {
        t.drop_first()
    } else {
        t
    }
}

/// A major or minor component: digits, no leading zero unless loose, and
/// no larger than `MAX_SAFE_INTEGER`.
pub open spec fn num_ok(raw: Seq<char>, loose: bool) -> bool {
    raw.len() > 0 && !(!loose && has_leading_zero(raw)) && dec_value(raw) <= MAX_SAFE_INTEGER
}

/// A prerelease identifier: non-empty, and when it is all digits, no
/// leading zero unless loose.
pub open spec fn pre_ident_ok(raw: Seq<char>, loose: bool) -> bool {
    raw.len() > 0 && !(!loose && has_leading_zero(raw) && all_digits(raw))
}

/// Prerelease identifiers separated by `.`, starting at `i`: the
/// identifiers and where reading stopped, or `None` when one is empty or
/// malformed.
pub open spec fn ident_list(b: Seq<char>, i: int, loose: bool) -> Option<(Seq<IdentView>, int)>
    decreases b.len() - i,
{
    if i < 0 || i > b.len() {
        None
    } else {
        let j = ident_run_end(b, i);
        let raw = b.subrange(i, j);
        if !pre_ident_ok(raw, loose) {
            None
        } else if j < b.len() && b[j] == '.' {
            proof {
                lemma_ident_run(b, i);
            }
            match ident_list(b, j + 1, loose) {
                None => None,
                Some((rest, q)) => Some((seq![ident_of(raw)] + rest, q)),
            }
        } else {
            Some((seq![ident_of(raw)], j))
        }
    }
}

/// Build identifiers separated by `.`, starting at `i`.
pub open spec fn build_list(b: Seq<char>, i: int) -> Option<(Seq<Seq<char>>, int)>
    decreases b.len() - i,
{
    if i < 0 || i > b.len() {
        None
    } else {
        let j = ident_run_end(b, i);
        let raw = b.subrange(i, j);
        if raw.len() == 0 {
            None
        } else if j < b.len() && b[j] == '.' {
            proof {
                lemma_ident_run(b, i);
            }
            match build_list(b, j + 1) {
                None => None,
                Some((rest, q)) => Some((seq![raw] + rest, q)),
            }
        } else {
            Some((seq![raw], j))
        }
    }
}

/// The identifier `-`.
pub open spec fn hyphen_ident() -> IdentView {
    IdentView::Alpha(seq!['-'])
}

/// The prerelease after a `-` at `i - 1`. In loose mode a hyphen with no
/// identifier character after it is itself the first identifier
/// (`1.2.3-` has prerelease `["-"]`, `1.2.3-.x` has `["-", "x"]`).
pub open spec fn dash_pre(b: Seq<char>, i: int, loose: bool) -> Option<(Seq<IdentView>, int)> {
    if loose && !(0 <= i < b.len() && is_ident_char(b[i])) {
        if 0 <= i < b.len() && b[i] == '.' {
            match ident_list(b, i + 1, loose) {
                None => None,
                Some((rest, q)) => Some((seq![hyphen_ident()] + rest, q)),
            }
        } else {
            Some((seq![hyphen_ident()], i))
        }
    } else {
        ident_list(b, i, loose)
    }
}

/// An optional `+build` tag at `q`.
pub open spec fn build_part(b: Seq<char>, q: int) -> Option<(Seq<Seq<char>>, int)> {
    if 0 <= q < b.len() && b[q] == '+' {
        build_list(b, q + 1)
    } else {
        Some((Seq::empty(), q))
    }
}

/// Whether everything from `r` reads as a prerelease (its hyphen
/// optional), then an optional build tag, to the end of the text.
pub open spec fn probe(b: Seq<char>, r: int) -> Option<(Seq<IdentView>, Seq<Seq<char>>)> {
    let pre = if 0 <= r < b.len() && b[r] == '-' {
        dash_pre(b, r + 1, true)
    } else {
        ident_list(b, r, true)
    };
    match pre {
        None => None,
        Some((p, q)) => match build_part(b, q) {
            None => None,
            Some((bs, q2)) => if q2 == b.len() {
                Some((p, bs))
            } else {
                None
            },
        },
    }
}

/// The loose grammar's backtracking: keep the first `keep` patch digits
/// and read the rest as a prerelease, longest patch first.
pub open spec fn backtrack(b: Seq<char>, major: u64, minor: u64, p3: int, keep: int) -> Option<
    VersionView,
>
    decreases keep,
{
    if keep < 1 {
        None
    } else {
        let pt = b.subrange(p3, p3 + keep);
        if dec_value(pt) <= MAX_SAFE_INTEGER && probe(b, p3 + keep) is Some {
            let (pre, bs) = probe(b, p3 + keep).unwrap();
            Some(VersionView { major, minor, patch: dec_value(pt) as u64, pre, build: bs })
        } else {
            backtrack(b, major, minor, p3, keep - 1)
        }
    }
}

/// The build tag and end-of-text check that close every successful read.
pub open spec fn finish(
    b: Seq<char>,
    major: u64,
    minor: u64,
    praw: Seq<char>,
    pre: Seq<IdentView>,
    q: int,
) -> Option<VersionView> {
    match build_part(b, q) {
        None => None,
        Some((bs, q2)) => if dec_value(praw) > MAX_SAFE_INTEGER || q2 != b.len() {
            None
        } else {
            Some(VersionView { major, minor, patch: dec_value(praw) as u64, pre, build: bs })
        },
    }
}

/// What follows the patch digits `b[p3..e3]`.
pub open spec fn scan_tail(
    b: Seq<char>,
    loose: bool,
    major: u64,
    minor: u64,
    p3: int,
    e3: int,
) -> Option<VersionView> {
    let praw = b.subrange(p3, e3);
    if loose && e3 < b.len() && is_alpha(b[e3]) {
        match ident_list(b, e3, loose) {
            None => None,
            Some((pre, q)) => finish(b, major, minor, praw, pre, q),
        }
    } else if e3 < b.len() && b[e3] == '-' {
        match dash_pre(b, e3 + 1, loose) {
            None => None,
            Some((pre, q)) => finish(b, major, minor, praw, pre, q),
        }
    } else if loose && e3 < b.len() && b[e3] == '.' {
        let n = e3 - p3;
        let keep = if n >= 2 {
            n - 1
        } else {
            1
        };
        match backtrack(b, major, minor, p3, keep) {
            Some(v) => Some(v),
            None => finish(b, major, minor, praw, Seq::empty(), e3),
        }
    } else {
        finish(b, major, minor, praw, Seq::empty(), e3)
    }
}

/// The whole version grammar, over the scanner's text.
#[verifier::opaque]
pub open spec fn scan_version(b: Seq<char>, loose: bool) -> Option<VersionView> {
    let e1 = digit_run_end(b, 0);
    let r1 = b.subrange(0, e1);
    if !num_ok(r1, loose) || e1 >= b.len() || b[e1] != '.' {
        None
    } else {
        let p2 = e1 + 1;
        let e2 = digit_run_end(b, p2);
        let r2 = b.subrange(p2, e2);
        if !num_ok(r2, loose) || e2 >= b.len() || b[e2] != '.' {
            None
        } else {
            let p3 = e2 + 1;
            let e3 = digit_run_end(b, p3);
            let r3 = b.subrange(p3, e3);
            if r3.len() == 0 || (!loose && has_leading_zero(r3)) {
                None
            } else {
                scan_tail(b, loose, dec_value(r1) as u64, dec_value(r2) as u64, p3, e3)
            }
        }
    }
}

// ── why a text is rejected ──────────────────────────────────────────────
/// Why a major or minor component is refused.
pub open spec fn num_reason(raw: Seq<char>, loose: bool) -> Seq<char> {
    if raw.len() == 0 {
        "expected a number"@
    } else if !loose && has_leading_zero(raw) {
        "leading zero in a version component"@
    } else if dec_value(raw) > u64::MAX {
        "version component out of range"@
    } else {
        "version component exceeds the maximum safe integer"@
    }
}

/// Why a list of prerelease identifiers at `i` is refused: the first
/// identifier that is empty or has a leading zero.
pub open spec fn ident_list_reason(b: Seq<char>, i: int, loose: bool) -> Seq<char>
    decreases b.len() - i,
{
    if i < 0 || i > b.len() {
        Seq::empty()
    } else {
        let j = ident_run_end(b, i);
        let raw = b.subrange(i, j);
        if raw.len() == 0 {
            "empty prerelease identifier"@
        } else if !pre_ident_ok(raw, loose) {
            "leading zero in a numeric prerelease identifier"@
        } else if j < b.len() && b[j] == '.' {
            proof {
                lemma_ident_run(b, i);
            }
            ident_list_reason(b, j + 1, loose)
        } else {
            Seq::empty()
        }
    }
}

/// Why a list of build identifiers at `i` is refused: one is empty.
pub open spec fn build_list_reason(b: Seq<char>, i: int) -> Seq<char>
    decreases b.len() - i,
{
    if i < 0 || i > b.len() {
        Seq::empty()
    } else {
        let j = ident_run_end(b, i);
        if j == i {
            "empty build identifier"@
        } else if j < b.len() && b[j] == '.' {
            proof {
                lemma_ident_run(b, i);
            }
            build_list_reason(b, j + 1)
        } else {
            Seq::empty()
        }
    }
}

/// Why the prerelease after a `-` at `i - 1` is refused.
pub open spec fn dash_pre_reason(b: Seq<char>, i: int, loose: bool) -> Seq<char> {
    if loose && !(0 <= i < b.len() && is_ident_char(b[i])) {
        ident_list_reason(b, i + 1, loose)
    } else {
        ident_list_reason(b, i, loose)
    }
}

/// Why the closing steps refuse the text: a bad build tag, a patch above
/// `MAX_SAFE_INTEGER`, or characters left over.
pub open spec fn finish_reason(b: Seq<char>, praw: Seq<char>, q: int) -> Seq<char> {
    match build_part(b, q) {
        None => build_list_reason(b, q + 1),
        Some(_) => if dec_value(praw) > MAX_SAFE_INTEGER {
            "version component exceeds the maximum safe integer"@
        } else {
            "trailing characters"@
        },
    }
}

/// Why what follows the patch digits `b[p3..e3]` is refused.
pub open spec fn scan_tail_reason(b: Seq<char>, loose: bool, p3: int, e3: int) -> Seq<char> {
    let praw = b.subrange(p3, e3);
    if loose && e3 < b.len() && is_alpha(b[e3]) {
        match ident_list(b, e3, loose) {
            None => ident_list_reason(b, e3, loose),
            Some((_, q)) => finish_reason(b, praw, q),
        }
    } else if e3 < b.len() && b[e3] == '-' {
        match dash_pre(b, e3 + 1, loose) {
            None => dash_pre_reason(b, e3 + 1, loose),
            Some((_, q)) => finish_reason(b, praw, q),
        }
    } else {
        finish_reason(b, praw, e3)
    }
}

/// Why the scanner refuses a text, where `scan_version` gives `None`.
pub open spec fn scan_reason(b: Seq<char>, loose: bool) -> Seq<char> {
    let e1 = digit_run_end(b, 0);
    let r1 = b.subrange(0, e1);
    if !num_ok(r1, loose) {
        num_reason(r1, loose)
    } else if e1 >= b.len() || b[e1] != '.' {
        "missing separator"@
    } else {
        let p2 = e1 + 1;
        let e2 = digit_run_end(b, p2);
        let r2 = b.subrange(p2, e2);
        if !num_ok(r2, loose) {
            num_reason(r2, loose)
        } else if e2 >= b.len() || b[e2] != '.' {
            "missing separator"@
        } else {
            let p3 = e2 + 1;
            let e3 = digit_run_end(b, p3);
            let r3 = b.subrange(p3, e3);
            if r3.len() == 0 {
                "expected a patch number"@
            } else if !loose && has_leading_zero(r3) {
                "leading zero in a version component"@
            } else {
                scan_tail_reason(b, loose, p3, e3)
            }
        }
    }
}

/// What parsing a version string gives, when it is not too long.
pub open spec fn parse_spec(s: Seq<char>, loose: bool) -> Option<VersionView> {
    scan_version(version_body(s, loose), loose)
}

/// Whether a text is longer than `MAX_LENGTH` bytes of UTF-8.
pub open spec fn too_long(s: Seq<char>) -> bool {
    encode_utf8(s).len() > MAX_LENGTH
}

/// What a version text reads as under these options: `None` when it is
/// too long or does not parse.
pub open spec fn parsed(s: Seq<char>, options: Options) -> Option<VersionView> {
    if too_long(s) {
        None
    } else {
        parse_spec(s, options.loose)
    }
}

/// The contract of version parsing: too long, read, or rejected.
pub open spec fn parse_outcome(s: Seq<char>, options: Options, r: Result<SemVer>) -> bool {
    if too_long(s) {
        r == Err::<SemVer, Error>(
            Error::TooLong { len: encode_utf8(s).len() as usize, max: MAX_LENGTH },
        )
    } else {
        match parse_spec(s, options.loose) {
            Some(v) => r is Ok && r->Ok_0@ == v && r->Ok_0.options == options,
            None => r matches Err(Error::InvalidVersion { input, reason }) && input@
                == version_body(s, options.loose) && reason@ == scan_reason(
                version_body(s, options.loose),
                options.loose,
            ),
        }
    }
}

/// A parse outcome is `Ok` exactly when the text reads as a version.
pub proof fn lemma_parse_outcome_ok(s: Seq<char>, options: Options, r: Result<SemVer>)
    requires
        parse_outcome(s, options, r),
    ensures
        (r is Ok) == (parsed(s, options) is Some),
        r is Ok ==> r->Ok_0@ == parsed(s, options)->Some_0 && r->Ok_0.options == options,
{
}

pub open spec fn same_ids(
    r: core::result::Result<(Vec<Identifier>, usize), &'static str>,
    s: Option<(Seq<IdentView>, int)>,
) -> bool {
    match (r, s) {
        (Ok((v, q)), Some((sv, sq))) => ids_view(v@) == sv && q == sq,
        (Err(_), None) => true,
        _ => false,
    }
}

pub open spec fn same_texts(
    r: core::result::Result<(Vec<String>, usize), &'static str>,
    s: Option<(Seq<Seq<char>>, int)>,
) -> bool {
    match (r, s) {
        (Ok((v, q)), Some((sv, sq))) => texts_view(v@) == sv && q == sq,
        (Err(_), None) => true,
        _ => false,
    }
}

/// Where a read version's parts come from: the numbers, the identifiers
/// and the build tag.
pub struct Parts {
    pub major: u64,
    pub minor: u64,
    pub patch: u64,
    pub prerelease: Vec<Identifier>,
    pub build: Vec<String>,
}

pub open spec fn parts_view(p: Parts) -> VersionView {
    VersionView {
        major: p.major,
        minor: p.minor,
        patch: p.patch,
        pre: ids_view(p.prerelease@),
        build: texts_view(p.build@),
    }
}

pub open spec fn same_parts(
    r: core::result::Result<Parts, &'static str>,
    s: Option<VersionView>,
) -> bool {
    match (r, s) {
        (Ok(p), Some(v)) => parts_view(p) == v,
        (Err(_), None) => true,
        _ => false,
    }
}

/// A major or minor component at `i`, and where it ends.
fn numeric_identifier(b: &Vec<char>, i: usize, loose: bool) -> (r: core::result::Result<
    (u64, usize),
    &'static str,
>)
    requires
        i <= b@.len(),
    ensures
        ({
            let e = digit_run_end(b@, i as int);
            let raw = b@.subrange(i as int, e);
            match r {
                Ok((n, e2)) => num_ok(raw, loose) && n == dec_value(raw) && e2 == e,
                Err(why) => !num_ok(raw, loose) && why@ == num_reason(raw, loose),
            }
        }),
{
    let e = scan_digits(b, i);
    if e == i {
        return Err("expected a number");
    }
    if !loose && e - i > 1 && b[i] == '0' {
        return Err("leading zero in a version component");
    }
    proof {
        lemma_digit_run(b@, i as int);
    }
    if !fits_u64(b, i, e) {
        return Err("version component out of range");
    }
    match read_number(b, i, e) {
        Some(n) => Ok((n, e)),
        None => Err("version component exceeds the maximum safe integer"),
    }
}

/// Prerelease identifiers separated by `.`, starting at `i`.
fn ident_list_exec(b: &Vec<char>, i: usize, loose: bool) -> (r: core::result::Result<
    (Vec<Identifier>, usize),
    &'static str,
>)
    requires
        i <= b@.len(),
    ensures
        same_ids(r, ident_list(b@, i as int, loose)),
        r matches Ok((_, q)) ==> i <= q <= b@.len(),
        r matches Err(why) ==> why@ == ident_list_reason(b@, i as int, loose),
    decreases b@.len() - i,
{
    let j = scan_ident(b, i);
    proof {
        lemma_ident_run(b@, i as int);
    }
    if j == i {
        return Err("empty prerelease identifier");
    }
    if !loose && j - i > 1 && b[i] == '0' {
        let k = scan_digits(b, i);
        if k >= j {
            proof {
                assert forall|m: int| 0 <= m < j - i implies #[trigger] crate::text::is_digit(
                    b@.subrange(i as int, j as int)[m],
                ) by {
                    assert(b@.subrange(i as int, j as int)[m] == b@.subrange(i as int, k as int)[m]);
                }
            }
            return Err("leading zero in a numeric prerelease identifier");
        }
        proof {
            crate::text::lemma_digit_run(b@, i as int);
            assert(!crate::text::is_digit(b@.subrange(i as int, j as int)[k - i]));
        }
    }
    let id = ident_from(b, i, j);
    if j < b.len() && b[j] == '.' {
        match ident_list_exec(b, j + 1, loose) {
            Ok((mut rest, q)) => {
                let ghost old_rest = ids_view(rest@);
                rest.insert(0, id);
                assert(ids_view(rest@) =~= seq![id@] + old_rest);
                Ok((rest, q))
            },
            Err(e) => Err(e),
        }
    } else {
        let mut v: Vec<Identifier> = Vec::new();
        v.push(id);
        assert(ids_view(v@) =~= seq![id@]);
        Ok((v, j))
    }
}

/// Build identifiers separated by `.`, starting at `i`.
fn build_list_exec(b: &Vec<char>, i: usize) -> (r: core::result::Result<
    (Vec<String>, usize),
    &'static str,
>)
    requires
        i <= b@.len(),
    ensures
        same_texts(r, build_list(b@, i as int)),
        r matches Ok((_, q)) ==> i <= q <= b@.len(),
        r matches Err(why) ==> why@ == build_list_reason(b@, i as int),
    decreases b@.len() - i,
{
    let j = scan_ident(b, i);
    proof {
        lemma_ident_run(b@, i as int);
    }
    if j == i {
        return Err("empty build identifier");
    }
    let raw = slice(b, i, j);
    let t = string_of(&raw);
    if j < b.len() && b[j] == '.' {
        match build_list_exec(b, j + 1) {
            Ok((mut rest, q)) => {
                let ghost old_rest = texts_view(rest@);
                rest.insert(0, t);
                assert(texts_view(rest@) =~= seq![raw@] + old_rest);
                Ok((rest, q))
            },
            Err(e) => Err(e),
        }
    } else {
        let mut v: Vec<String> = Vec::new();
        v.push(t);
        assert(texts_view(v@) =~= seq![raw@]);
        Ok((v, j))
    }
}

fn hyphen() -> (r: Identifier)
    ensures
        r@ == hyphen_ident(),
{
    let mut v: Vec<char> = Vec::new();
    v.push('-');
    assert(v@ =~= seq!['-']);
    Identifier::Alphanumeric(string_of(&v))
}

fn dash_pre_exec(b: &Vec<char>, i: usize, loose: bool) -> (r: core::result::Result<
    (Vec<Identifier>, usize),
    &'static str,
>)
    requires
        i <= b@.len(),
    ensures
        same_ids(r, dash_pre(b@, i as int, loose)),
        r matches Ok((_, q)) ==> i <= q <= b@.len(),
        r matches Err(why) ==> why@ == dash_pre_reason(b@, i as int, loose),
{
    let identifier_next = i < b.len() && ident_char(b[i]);
    if loose && !identifier_next {
        if i < b.len() && b[i] == '.' {
            match ident_list_exec(b, i + 1, loose) {
                Ok((mut rest, q)) => {
                    let ghost old_rest = ids_view(rest@);
                    rest.insert(0, hyphen());
                    assert(ids_view(rest@) =~= seq![hyphen_ident()] + old_rest);
                    Ok((rest, q))
                },
                Err(e) => Err(e),
            }
        } else {
            let mut v: Vec<Identifier> = Vec::new();
            v.push(hyphen());
            assert(ids_view(v@) =~= seq![hyphen_ident()]);
            Ok((v, i))
        }
    } else {
        ident_list_exec(b, i, loose)
    }
}

fn build_part_exec(b: &Vec<char>, q: usize) -> (r: core::result::Result<
    (Vec<String>, usize),
    &'static str,
>)
    requires
        q <= b@.len(),
    ensures
        same_texts(r, build_part(b@, q as int)),
        r matches Ok((_, q2)) ==> q <= q2 <= b@.len(),
        r matches Err(why) ==> why@ == build_list_reason(b@, q + 1),
{
    if q < b.len() && b[q] == '+' {
        build_list_exec(b, q + 1)
    } else {
        let v: Vec<String> = Vec::new();
        assert(texts_view(v@) =~= Seq::<Seq<char>>::empty());
        Ok((v, q))
    }
}

/// Reproduce the loose grammar's backtracking split: surrender trailing
/// patch digits so the rest of the text reads as a prerelease, trying the
/// longest patch first, as a greedy regex quantifier gives digits back.
///
/// `90071992547.0991.59.145515` reads as patch 5, prerelease `9.145515`.
fn backtrack_patch_for_prerelease(
    b: &Vec<char>,
    major: u64,
    minor: u64,
    p3: usize,
    e3: usize,
) -> (r: Option<Parts>)
    requires
        p3 < e3 <= b@.len(),
        all_digits(b@.subrange(p3 as int, e3 as int)),
    ensures
        ({
            let n = e3 - p3;
            let keep = if n >= 2 {
                n - 1
            } else {
                1
            };
            match (r, backtrack(b@, major, minor, p3 as int, keep)) {
                (Some(p), Some(v)) => parts_view(p) == v,
                (None, None) => true,
                _ => false,
            }
        }),
{
    let n = e3 - p3;
    let mut keep: usize = if n >= 2 {
        n - 1
    } else {
        1
    };
    let ghost first = keep;
    while keep >= 1
        invariant
            p3 < e3 <= b@.len(),
            keep <= e3 - p3,
            first == (if e3 - p3 >= 2 {
                e3 - p3 - 1
            } else {
                1
            }),
            all_digits(b@.subrange(p3 as int, e3 as int)),
            backtrack(b@, major, minor, p3 as int, first as int) == backtrack(
                b@,
                major,
                minor,
                p3 as int,
                keep as int,
            ),
        decreases keep,
    {
        proof {
            assert forall|m: int| 0 <= m < keep implies #[trigger] crate::text::is_digit(
                b@.subrange(p3 as int, (p3 + keep) as int)[m],
            ) by {
                assert(b@.subrange(p3 as int, (p3 + keep) as int)[m] == b@.subrange(
                    p3 as int,
                    e3 as int,
                )[m]);
            }
        }
        match read_number(b, p3, p3 + keep) {
            Some(patch) => {
                let r = p3 + keep;
                let pre = if r < b.len() && b[r] == '-' {
                    dash_pre_exec(b, r + 1, true)
                } else {
                    ident_list_exec(b, r, true)
                };
                match pre {
                    Ok((prerelease, q)) => {
                        match build_part_exec(b, q) {
                            Ok((build, q2)) => {
                                if q2 == b.len() {
                                    assert(probe(b@, r as int) == Some(
                                        (ids_view(prerelease@), texts_view(build@)),
                                    ));
                                    let ghost pv = parts_view(
                                        Parts { major, minor, patch, prerelease, build },
                                    );
                                    assert(backtrack(b@, major, minor, p3 as int, keep as int)
                                        == Some(pv));
                                    assert(backtrack(b@, major, minor, p3 as int, first as int)
                                        == Some(pv));

                                    return Some(Parts { major, minor, patch, prerelease, build });
                                }
                            },
                            Err(_) => {},
                        }
                    },
                    Err(_) => {},
                }
            },
            None => {},
        }
        keep = keep - 1;
    }
    None
}

/// The scanner's closing steps: an optional build tag, the patch bound,
/// and the end of the text.
fn finish_exec(
    b: &Vec<char>,
    major: u64,
    minor: u64,
    p3: usize,
    e3: usize,
    prerelease: Vec<Identifier>,
    q: usize,
) -> (r: core::result::Result<Parts, &'static str>)
    requires
        p3 <= e3 <= b@.len(),
        q <= b@.len(),
        all_digits(b@.subrange(p3 as int, e3 as int)),
    ensures
        same_parts(
            r,
            finish(b@, major, minor, b@.subrange(p3 as int, e3 as int), ids_view(prerelease@), q as int),
        ),
        r matches Err(why) ==> why@ == finish_reason(b@, b@.subrange(p3 as int, e3 as int), q as int),
{
    let build = match build_part_exec(b, q) {
        Ok((build, q2)) => {
            let patch = match read_number(b, p3, e3) {
                Some(n) => n,
                None => {
                    return Err("version component exceeds the maximum safe integer");
                },
            };
            if q2 != b.len() {
                return Err("trailing characters");
            }
            return Ok(Parts { major, minor, patch, prerelease, build });
        },
        Err(e) => {
            return Err(e);
        },
    };
}

/// Read a whole version from the scanner's text.
fn scan_version_exec(b: &Vec<char>, loose: bool) -> (r: core::result::Result<Parts, &'static str>)
    ensures
        same_parts(r, scan_version(b@, loose)),
        r matches Err(why) ==> why@ == scan_reason(b@, loose),
{
    reveal(scan_version);
    let (major, e1) = numeric_identifier(b, 0, loose)?;
    if e1 >= b.len() || b[e1] != '.' {
        return Err("missing separator");
    }
    let (minor, e2) = numeric_identifier(b, e1 + 1, loose)?;
    if e2 >= b.len() || b[e2] != '.' {
        return Err("missing separator");
    }
    let p3 = e2 + 1;
    let e3 = scan_digits(b, p3);
    if e3 == p3 {
        return Err("expected a patch number");
    }
    if !loose && e3 - p3 > 1 && b[p3] == '0' {
        return Err("leading zero in a version component");
    }
    if loose && e3 < b.len() && alpha_char(b[e3]) {
        let (pre, q) = ident_list_exec(b, e3, loose)?;
        finish_exec(b, major, minor, p3, e3, pre, q)
    } else if e3 < b.len() && b[e3] == '-' {
        let (pre, q) = dash_pre_exec(b, e3 + 1, loose)?;
        finish_exec(b, major, minor, p3, e3, pre, q)
    } else if loose && e3 < b.len() && b[e3] == '.' {
        match backtrack_patch_for_prerelease(b, major, minor, p3, e3) {
            Some(split) => Ok(split),
            None => {
                let empty: Vec<Identifier> = Vec::new();
                assert(ids_view(empty@) =~= Seq::<IdentView>::empty());
                finish_exec(b, major, minor, p3, e3, empty, e3)
            },
        }
    } else {
        let empty: Vec<Identifier> = Vec::new();
        assert(ids_view(empty@) =~= Seq::<IdentView>::empty());
        finish_exec(b, major, minor, p3, e3, empty, e3)
    }
}


proof fn lemma_eqv_lead(s: Seq<char>, i: int)
    requires
        0 <= i <= s.len(),
        forall|k: int| 0 <= k < i ==> #[trigger] s[k] == '=' || s[k] == 'v',
    ensures
        eqv_lead(s) == i + eqv_lead(s.skip(i)),
    decreases i,
{
    if i > 0 {
        assert(s.drop_first().skip(i - 1) =~= s.skip(i));
        assert forall|k: int| 0 <= k < i - 1 implies #[trigger] s.drop_first()[k] == '='
            || s.drop_first()[k] == 'v' by {
            assert(s.drop_first()[k] == s[k + 1]);
        }
        assert(s[0] == '=' || s[0] == 'v');
        lemma_eqv_lead(s.drop_first(), i - 1);
    } else {
        assert(s.skip(0) =~= s);
    }
}

/// `s` without its leading `=`/`v` characters.
pub fn strip_eqv(s: &Vec<char>) -> (r: Vec<char>)
    ensures
        r@ == s@.skip(eqv_lead(s@) as int),
{
    let mut i: usize = 0;
    while i < s.len() && (s[i] == '=' || s[i] == 'v')
        invariant
            i <= s@.len(),
            forall|k: int| 0 <= k < i ==> #[trigger] s@[k] == '=' || s@[k] == 'v',
        decreases s@.len() - i,
    {
        i = i + 1;
    }
    proof {
        lemma_eqv_lead(s@, i as int);
        if i < s@.len() {
            assert(s@.skip(i as int)[0] == s@[i as int]);
        }
        assert(eqv_lead(s@.skip(i as int)) == 0);
    }
    slice(s, i, s.len())
}

/// The text the scanner reads.
pub fn body_of(chars: &Vec<char>, loose: bool) -> (b: Vec<char>)
    ensures
        b@ == version_body(chars@, loose),
{
    let t = trim_vec(chars);
    if loose {
        let u = strip_eqv(&t);
        trim_start_vec(&u)
    } else if t.len() > 0 && t[0] == 'v' {
        slice(&t, 1, t.len())
    } else {
        t
    }
}

/// Read a version from its characters, `None` when it does not parse.
pub fn parse_chars(chars: &Vec<char>, options: Options) -> (r: Option<SemVer>)
    ensures
        match parsed(chars@, options) {
            Some(v) => r is Some && r->Some_0@ == v && r->Some_0.options == options,
            None => r is None,
        },
{
    if exceeds_bytes(chars, MAX_LENGTH) {
        return None;
    }
    let body = body_of(chars, options.loose);
    match scan_version_exec(&body, options.loose) {
        Ok(p) => Some(
            SemVer {
                major: p.major,
                minor: p.minor,
                patch: p.patch,
                prerelease: p.prerelease,
                build: p.build,
                options,
            },
        ),
        Err(_) => None,
    }
}

impl SemVer {
    /// Parse a version string.
    ///
    /// In loose mode a leading `v` or `=`, components with leading zeros,
    /// and an omitted prerelease hyphen are tolerated.
    pub fn parse<O: IntoOptions>(version: &str, options: O) -> (r: Result<SemVer>)
        ensures
            parse_outcome(version@, options.as_options(), r),
    {
        let options = options.into_options();
        Self::parse_with(version, options)
    }

    /// Parse with options already in hand.
    pub fn parse_with(version: &str, options: Options) -> (r: Result<SemVer>)
        ensures
            parse_outcome(version@, options, r),
    {
        let chars = chars_of(version);
        // The length bound applies to the untrimmed input, in bytes.
        if exceeds_bytes(&chars, MAX_LENGTH) {
            return Err(Error::TooLong { len: version.len(), max: MAX_LENGTH });
        }
        let body = body_of(&chars, options.loose);
        match scan_version_exec(&body, options.loose) {
            Ok(p) => Ok(
                SemVer {
                    major: p.major,
                    minor: p.minor,
                    patch: p.patch,
                    prerelease: p.prerelease,
                    build: p.build,
                    options,
                },
            ),
            Err(reason) => Err(Error::InvalidVersion { input: string_of(&body), reason }),
        }
    }
}


// ── bounds of what parsing gives ────────────────────────────────────────
/// A number at most `MAX_SAFE_INTEGER`, or a text that is a non-empty
/// run of identifier characters and does not read as such a number.
pub open spec fn id_well_formed(i: IdentView) -> bool {
    match i {
        IdentView::Num(n) => n <= MAX_SAFE_INTEGER,
        IdentView::Alpha(t) => t.len() > 0 && (forall|k: int|
            0 <= k < t.len() ==> #[trigger] is_ident_char(t[k])) && !(all_digits(t) && dec_value(t)
            <= MAX_SAFE_INTEGER),
    }
}

pub open spec fn ids_well_formed(ids: Seq<IdentView>) -> bool {
    forall|i: int| 0 <= i < ids.len() ==> id_well_formed(#[trigger] ids[i])
}

/// What parsing gives: every number at most `MAX_SAFE_INTEGER`, and every
/// text identifier a non-empty run of identifier characters that does not
/// read as a number.
pub open spec fn well_formed(v: VersionView) -> bool {
    &&& v.major <= MAX_SAFE_INTEGER
    &&& v.minor <= MAX_SAFE_INTEGER
    &&& v.patch <= MAX_SAFE_INTEGER
    &&& ids_well_formed(v.pre)
}

/// Precedence is reflexive: every version ranks equal to itself.
pub proof fn lemma_ver_order_reflexive(a: VersionView)
    ensures
        ver_order(a, a) == 0,
{
    lemma_ver_order_antisym(a, a);
}

/// Build metadata never affects precedence: two versions that differ only
/// in it rank equal, and rank the same against any third.
pub proof fn lemma_build_ignored(a: VersionView, b: VersionView, c: VersionView)
    requires
        a.major == b.major,
        a.minor == b.minor,
        a.patch == b.patch,
        a.pre == b.pre,
    ensures
        ver_order(a, c) == ver_order(b, c),
        ver_order(c, a) == ver_order(c, b),
        ver_order(a, b) == 0,
{
    lemma_ver_order_reflexive(a);
}

proof fn lemma_ident_list_well_formed(b: Seq<char>, i: int, loose: bool)
    ensures
        ident_list(b, i, loose) matches Some((ids, q)) ==> ids_well_formed(ids) && i <= q <= b.len(),
    decreases b.len() - i,
{
    if 0 <= i <= b.len() {
        lemma_ident_run(b, i);
        let j = ident_run_end(b, i);
        if j < b.len() && b[j] == '.' {
            lemma_ident_list_well_formed(b, j + 1, loose);
        }
        if let Some((ids, q)) = ident_list(b, i, loose) {
            let raw = b.subrange(i, j);
            assert forall|k: int| 0 <= k < raw.len() implies #[trigger] is_ident_char(raw[k]) by {
                assert(raw[k] == b[i + k]);
            }
            assert(id_well_formed(ident_of(raw)));
            assert forall|k: int| 0 <= k < ids.len() implies id_well_formed(#[trigger] ids[k]) by {
                if k > 0 {
                    let (rest, q2) = ident_list(b, j + 1, loose).unwrap();
                    assert(ids[k] == rest[k - 1]);
                }
            }
        }
    }
}

proof fn lemma_hyphen_ident_well_formed()
    ensures
        id_well_formed(hyphen_ident()),
{
    let t = seq!['-'];
    assert(t[0] == '-');
    assert(!crate::text::is_digit(t[0]));
    assert(!all_digits(t));
    assert forall|k: int| 0 <= k < t.len() implies #[trigger] is_ident_char(t[k]) by {
        assert(t[k] == '-');
    }
}

proof fn lemma_dash_pre_well_formed(b: Seq<char>, i: int, loose: bool)
    ensures
        dash_pre(b, i, loose) matches Some((ids, q)) ==> ids_well_formed(ids),
{
    lemma_ident_list_well_formed(b, i, loose);
    lemma_ident_list_well_formed(b, i + 1, loose);
    lemma_hyphen_ident_well_formed();
    if let Some((ids, q)) = dash_pre(b, i, loose) {
        if loose && !(0 <= i < b.len() && is_ident_char(b[i])) && 0 <= i < b.len() && b[i] == '.' {
            let (rest, q2) = ident_list(b, i + 1, loose).unwrap();
            assert forall|k: int| 0 <= k < ids.len() implies id_well_formed(#[trigger] ids[k]) by {
                if k > 0 {
                    assert(ids[k] == rest[k - 1]);
                }
            }
        }
    }
}

proof fn lemma_backtrack_well_formed(b: Seq<char>, major: u64, minor: u64, p3: int, keep: int)
    requires
        major <= MAX_SAFE_INTEGER,
        minor <= MAX_SAFE_INTEGER,
    ensures
        backtrack(b, major, minor, p3, keep) matches Some(v) ==> well_formed(v),
    decreases keep,
{
    if keep >= 1 {
        let r = p3 + keep;
        lemma_dash_pre_well_formed(b, r + 1, true);
        lemma_ident_list_well_formed(b, r, true);
        lemma_backtrack_well_formed(b, major, minor, p3, keep - 1);
    }
}

/// What a version text reads as keeps every number within
/// `MAX_SAFE_INTEGER`.
pub proof fn lemma_parsed_well_formed(s: Seq<char>, options: Options)
    ensures
        parsed(s, options) matches Some(v) ==> well_formed(v),
{
    reveal(scan_version);
    let b = version_body(s, options.loose);
    let loose = options.loose;
    let e1 = digit_run_end(b, 0);
    let p2 = e1 + 1;
    let e2 = digit_run_end(b, p2);
    let p3 = e2 + 1;
    let e3 = digit_run_end(b, p3);
    lemma_ident_list_well_formed(b, e3, loose);
    lemma_dash_pre_well_formed(b, e3 + 1, loose);
    let n = e3 - p3;
    let keep = if n >= 2 {
        n - 1
    } else {
        1
    };
    let r1 = b.subrange(0, e1);
    let r2 = b.subrange(p2, e2);
    if num_ok(r1, loose) && num_ok(r2, loose) {
        lemma_backtrack_well_formed(b, dec_value(r1) as u64, dec_value(r2) as u64, p3, keep);
    }
}

} // verus!
