//! Version incrementing.
//!
//! The rules are less obvious than they look. `major` on `1.0.0-5` gives
//! `1.0.0`, not `2.0.0`: a prerelease of a version is already "before" it,
//! so releasing it is the increment. The same asymmetry applies to `minor`
//! and `patch`, each with its own condition.
use crate::error::{Error, Result};
use crate::identifiers::{
    id_order_exec, ident_of, ids_view, lemma_id_order_antisym, list_order, IdentView, Identifier,
};
use crate::semver::{build_ids, join_ids, push_ids, render, ver_order, SemVer, VersionView};
use crate::text::{
    all_digits, chars_of, chars_of_string, has_leading_zero, push_all, ident_char, is_digit, is_ident_char, pieces_view, split_char, split_on, string_of,
};
use vstd::prelude::*;

verus! {

/// What kind of increment to apply.
#[derive(Debug, Clone, Copy, PartialEq, Eq)]
pub enum Release {
    /// Bump the major version, resetting minor and patch to 0.
    Major,
    /// Bump the minor version, resetting patch to 0.
    Minor,
    /// Bump the patch version.
    Patch,
    /// Bump the major version and start a new prerelease.
    PreMajor,
    /// Bump the minor version and start a new prerelease.
    PreMinor,
    /// Bump the patch version and start a new prerelease.
    PrePatch,
    /// Bump the prerelease tag, or start one at patch level if there
    /// wasn't already one.
    PreRelease,
    /// Drop the prerelease tag, promoting a prerelease to its release.
    ReleaseOnly,
    /// Bump the prerelease tag alone: `1.0.0` becomes `1.0.0-0`.
    Pre,
}

/// The release kind a name stands for.
pub open spec fn release_named(s: Seq<char>) -> Option<Release> {
    if s == "major"@ {
        Some(Release::Major)
    } else if s == "minor"@ {
        Some(Release::Minor)
    } else if s == "patch"@ {
        Some(Release::Patch)
    } else if s == "premajor"@ {
        Some(Release::PreMajor)
    } else if s == "preminor"@ {
        Some(Release::PreMinor)
    } else if s == "prepatch"@ {
        Some(Release::PrePatch)
    } else if s == "prerelease"@ {
        Some(Release::PreRelease)
    } else if s == "release"@ {
        Some(Release::ReleaseOnly)
    } else if s == "pre"@ {
        Some(Release::Pre)
    } else {
        None
    }
}

pub open spec fn is_pre_release(r: Release) -> bool {
    match r {
        Release::PreMajor | Release::PreMinor | Release::PrePatch | Release::PreRelease
        | Release::Pre => true,
        _ => false,
    }
}

fn same_str(a: &Vec<char>, lit: &str) -> (r: bool)
    ensures
        r == (a@ == lit@),
{
    let b = chars_of(lit);
    crate::text::same_text(a, &b)
}

impl Release {
    /// Parse one of the release-kind names `inc()` accepts, such as
    /// `"major"` or `"prepatch"`.
    pub fn parse(s: &str) -> (r: Result<Release>)
        ensures
            match release_named(s@) {
                Some(k) => r == Ok::<Release, Error>(k),
                None => r matches Err(Error::InvalidIncrement { kind }) && kind@ == s@,
            },
    {
        let v = chars_of(s);
        if same_str(&v, "major") {
            Ok(Release::Major)
        } else if same_str(&v, "minor") {
            Ok(Release::Minor)
        } else if same_str(&v, "patch") {
            Ok(Release::Patch)
        } else if same_str(&v, "premajor") {
            Ok(Release::PreMajor)
        } else if same_str(&v, "preminor") {
            Ok(Release::PreMinor)
        } else if same_str(&v, "prepatch") {
            Ok(Release::PrePatch)
        } else if same_str(&v, "prerelease") {
            Ok(Release::PreRelease)
        } else if same_str(&v, "release") {
            Ok(Release::ReleaseOnly)
        } else if same_str(&v, "pre") {
            Ok(Release::Pre)
        } else {
            Err(Error::InvalidIncrement { kind: string_of(&v) })
        }
    }

    /// Whether this kind starts or bumps a prerelease.
    pub fn is_pre(self) -> (r: bool)
        ensures
            r == is_pre_release(self),
    {
        match self {
            Release::PreMajor | Release::PreMinor | Release::PrePatch | Release::PreRelease
            | Release::Pre => true,
            _ => false,
        }
    }
}

/// Where a new numeric prerelease identifier starts: 0, 1, or no number
/// appended at all.
#[derive(Debug, Clone, Copy, PartialEq, Eq, Default)]
pub enum IdentifierBase {
    /// New prerelease numeric identifiers start at 0. The default.
    #[default]
    Zero,
    /// New prerelease numeric identifiers start at 1.
    One,
    /// Append the identifier with no numeric suffix (node-semver's
    /// `false`).
    Unnumbered,
}

pub open spec fn base_value(b: IdentifierBase) -> u64 {
    match b {
        IdentifierBase::One => 1,
        _ => 0,
    }
}

impl IdentifierBase {
    /// The number a new numeric identifier starts at.
    pub fn value(self) -> (r: u64)
        ensures
            r == base_value(self),
    {
        match self {
            IdentifierBase::One => 1,
            _ => 0,
        }
    }

    fn is_unnumbered(self) -> (r: bool)
        ensures
            r == (self is Unnumbered),
    {
        match self {
            IdentifierBase::Unnumbered => true,
            _ => false,
        }
    }
}

// ── specification ───────────────────────────────────────────────────────
/// Whether `tag` is a legal prerelease tag on its own: non-empty
/// dot-separated identifiers of identifier characters, numeric ones
/// without a leading zero unless loose.
pub open spec fn valid_tag(tag: Seq<char>, loose: bool) -> bool {
    tag.len() > 0 && forall|i: int|
        0 <= i < split_on(tag, '.').len() ==> #[trigger] valid_tag_part(split_on(tag, '.')[i], loose)
}

pub open spec fn valid_tag_part(part: Seq<char>, loose: bool) -> bool {
    &&& part.len() > 0
    &&& forall|k: int| 0 <= k < part.len() ==> #[trigger] is_ident_char(part[k])
    &&& !(!loose && has_leading_zero(part) && all_digits(part))
}

/// Whether `pre` already begins with the dot-separated identifiers of `id`.
pub open spec fn starts_with_tag(pre: Seq<IdentView>, id: Seq<char>) -> bool {
    let parts = split_on(id, '.');
    parts.len() <= pre.len() && forall|i: int|
        0 <= i < parts.len() ==> pre[i] == ident_of(#[trigger] parts[i])
}

/// The identifiers a tag names, plus the starting number unless the base
/// is `None`.
pub open spec fn replacement(id: Seq<char>, base: IdentifierBase) -> Seq<IdentView> {
    let named = build_ids(split_on(id, '.'));
    if base is Unnumbered {
        named
    } else {
        named.push(IdentView::Num(base_value(base)))
    }
}

/// Index of the last numeric identifier among the first `i`, or -1.
pub open spec fn last_numeric(pre: Seq<IdentView>, i: int) -> int
    decreases i,
{
    if i <= 0 {
        -1
    } else if pre[i - 1] is Num {
        i - 1
    } else {
        last_numeric(pre, i - 1)
    }
}

/// Numeric identifiers (and version numbers) leave room to count up.
pub open spec fn inc_fits(v: VersionView) -> bool {
    &&& v.major < u64::MAX
    &&& v.minor < u64::MAX
    &&& v.patch < u64::MAX
    &&& forall|i: int| 0 <= i < v.pre.len() ==> (#[trigger] v.pre[i] matches IdentView::Num(n)
        ==> n < u64::MAX)
}

/// The `pre` step: bump the last numeric identifier (or start one), then
/// apply the named tag. `None` when the tag already exists and no number
/// may be appended.
pub open spec fn pre_step(v: VersionView, identifier: Option<Seq<char>>, base: IdentifierBase) -> Option<
    VersionView,
> {
    let bv = base_value(base);
    let p1 = if v.pre.len() == 0 {
        Some(seq![IdentView::Num(bv)])
    } else {
        let k = last_numeric(v.pre, v.pre.len() as int);
        if k >= 0 {
            let n = v.pre[k]->Num_0;
            Some(v.pre.update(k, IdentView::Num((n + 1) as u64)))
        } else if identifier == Some(join_ids(v.pre)) && base is Unnumbered {
            None
        } else {
            Some(v.pre.push(IdentView::Num(bv)))
        }
    };
    match p1 {
        None => None,
        Some(p) => {
            let p2 = match identifier {
                None => p,
                Some(id) => if starts_with_tag(p, id) {
                    let at = split_on(id, '.').len() as int;
                    if at < p.len() && p[at] is Num {
                        p
                    } else {
                        replacement(id, base)
                    }
                } else {
                    replacement(id, base)
                },
            };
            Some(VersionView { pre: p2, ..v })
        },
    }
}

/// The `patch` step.
pub open spec fn patch_step(v: VersionView) -> VersionView {
    VersionView {
        patch: if v.pre.len() == 0 {
            (v.patch + 1) as u64
        } else {
            v.patch
        },
        pre: Seq::empty(),
        ..v
    }
}

/// Why an increment is refused, where `inc_spec` gives `None`: a
/// prerelease kind with neither a tag nor a number, a tag that is not a
/// valid prerelease, a release of a version that is not a prerelease, or
/// a tag that the version already ends with.
pub open spec fn inc_refusal(
    v: VersionView,
    release: Release,
    identifier: Option<Seq<char>>,
    base: IdentifierBase,
    loose: bool,
) -> Seq<char> {
    if is_pre_release(release) && identifier is None && base is Unnumbered {
        "identifier is empty"@
    } else if is_pre_release(release) && identifier is Some && !valid_tag(identifier->Some_0, loose) {
        "invalid identifier: "@ + identifier->Some_0
    } else if release is ReleaseOnly {
        "version "@ + render(v) + " is not a prerelease"@
    } else {
        "identifier already exists"@
    }
}

/// What an increment gives, or `None` when the release kind cannot be
/// applied with this identifier.
pub open spec fn inc_spec(
    v: VersionView,
    release: Release,
    identifier: Option<Seq<char>>,
    base: IdentifierBase,
    loose: bool,
) -> Option<VersionView> {
    if is_pre_release(release) && ((identifier is None && base is Unnumbered) || (identifier matches Some(
        id,
    ) && !valid_tag(id, loose))) {
        None
    } else {
        match release {
            Release::PreMajor => pre_step(
                VersionView {
                    major: (v.major + 1) as u64,
                    minor: 0,
                    patch: 0,
                    pre: Seq::empty(),
                    ..v
                },
                identifier,
                base,
            ),
            Release::PreMinor => pre_step(
                VersionView { minor: (v.minor + 1) as u64, patch: 0, pre: Seq::empty(), ..v },
                identifier,
                base,
            ),
            Release::PrePatch => pre_step(
                patch_step(VersionView { pre: Seq::empty(), ..v }),
                identifier,
                base,
            ),
            Release::PreRelease => if v.pre.len() == 0 {
                pre_step(patch_step(v), identifier, base)
            } else {
                pre_step(v, identifier, base)
            },
            Release::ReleaseOnly => if v.pre.len() == 0 {
                None
            } else {
                Some(VersionView { pre: Seq::empty(), ..v })
            },
            Release::Major => Some(
                VersionView {
                    major: if v.minor != 0 || v.patch != 0 || v.pre.len() == 0 {
                        (v.major + 1) as u64
                    } else {
                        v.major
                    },
                    minor: 0,
                    patch: 0,
                    pre: Seq::empty(),
                    ..v
                },
            ),
            Release::Minor => Some(
                VersionView {
                    minor: if v.patch != 0 || v.pre.len() == 0 {
                        (v.minor + 1) as u64
                    } else {
                        v.minor
                    },
                    patch: 0,
                    pre: Seq::empty(),
                    ..v
                },
            ),
            Release::Patch => Some(patch_step(v)),
            Release::Pre => pre_step(v, identifier, base),
        }
    }
}

pub open spec fn opt_text(s: Option<&str>) -> Option<Seq<char>> {
    match s {
        Some(t) => Some(t@),
        None => None,
    }
}

// ── implementation ──────────────────────────────────────────────────────
fn no_ids() -> (r: Vec<Identifier>)
    ensures
        ids_view(r@) == Seq::<IdentView>::empty(),
{
    let r: Vec<Identifier> = Vec::new();
    assert(ids_view(r@) =~= Seq::<IdentView>::empty());
    r
}

/// Whether `tag` is a legal prerelease tag on its own.
fn is_valid_prerelease_tag(tag: &str, loose: bool) -> (r: bool)
    ensures
        r == valid_tag(tag@, loose),
{
    let t = chars_of(tag);
    if t.len() == 0 {
        return false;
    }
    let parts = split_char(&t, '.');
    let mut i: usize = 0;
    while i < parts.len()
        invariant
            i <= parts@.len(),
            t@ == tag@,
            tag@.len() > 0,
            pieces_view(parts@) == split_on(tag@, '.'),
            forall|m: int| 0 <= m < i ==> #[trigger] valid_tag_part(split_on(tag@, '.')[m], loose),
        decreases parts@.len() - i,
    {
        let part = &parts[i];
        assert(part@ == split_on(tag@, '.')[i as int]);
        if part.len() == 0 {
            assert(!valid_tag_part(split_on(tag@, '.')[i as int], loose));
            return false;
        }
        let mut k: usize = 0;
        let mut all_dig = true;
        while k < part.len()
            invariant
                k <= part@.len(),
                0 <= i < split_on(tag@, '.').len(),
                part@ == split_on(tag@, '.')[i as int],
                forall|m: int| 0 <= m < k ==> #[trigger] is_ident_char(part@[m]),
                all_dig == (forall|m: int| 0 <= m < k ==> #[trigger] is_digit(part@[m])),
            decreases part@.len() - k,
        {
            if !ident_char(part[k]) {
                assert(!is_ident_char(part@[k as int]));
                assert(!valid_tag_part(split_on(tag@, '.')[i as int], loose));
                return false;
            }
            if !crate::text::digit_char(part[k]) {
                all_dig = false;
            }
            k = k + 1;
        }
        if !loose && part.len() > 1 && part[0] == '0' && all_dig {
            assert(all_digits(part@));
            assert(!valid_tag_part(split_on(tag@, '.')[i as int], loose));
            return false;
        }
        assert(valid_tag_part(split_on(tag@, '.')[i as int], loose));
        i = i + 1;
    }
    true
}

/// Whether `prerelease` already begins with the identifiers in
/// `identifier`, dot-separated.
fn is_prerelease_identifier(prerelease: &Vec<Identifier>, identifier: &str) -> (r: bool)
    ensures
        r == starts_with_tag(ids_view(prerelease@), identifier@),
{
    let t = chars_of(identifier);
    let parts = split_char(&t, '.');
    if parts.len() > prerelease.len() {
        return false;
    }
    let mut i: usize = 0;
    while i < parts.len()
        invariant
            i <= parts@.len() <= prerelease@.len(),
            pieces_view(parts@) == split_on(identifier@, '.'),
            forall|m: int|
                0 <= m < i ==> ids_view(prerelease@)[m] == ident_of(
                    #[trigger] split_on(identifier@, '.')[m],
                ),
        decreases parts@.len() - i,
    {
        let want = crate::identifiers::ident_from(&parts[i], 0, parts[i].len());
        assert(parts@[i as int]@.subrange(0, parts@[i as int]@.len() as int) =~= parts@[i as int]@);
        let c = id_order_exec(&prerelease[i], &want);
        proof {
            lemma_id_order_antisym(prerelease@[i as int]@, want@);
        }
        assert(pieces_view(parts@)[i as int] == parts@[i as int]@);
        assert(want@ == ident_of(split_on(identifier@, '.')[i as int]));
        assert(ids_view(prerelease@)[i as int] == prerelease@[i as int]@);
        if c != 0 {
            return false;
        }
        i = i + 1;
    }
    true
}

/// The identifiers of a tag, plus the starting number unless `base` is
/// `None`.
fn replacement_exec(id: &str, base: IdentifierBase) -> (r: Vec<Identifier>)
    ensures
        ids_view(r@) == replacement(id@, base),
{
    let t = chars_of(id);
    let parts = split_char(&t, '.');
    let mut r: Vec<Identifier> = Vec::new();
    let mut i: usize = 0;
    while i < parts.len()
        invariant
            i <= parts@.len(),
            pieces_view(parts@) == split_on(id@, '.'),
            ids_view(r@) == build_ids(split_on(id@, '.').take(i as int)),
        decreases parts@.len() - i,
    {
        let x = crate::identifiers::ident_from(&parts[i], 0, parts[i].len());
        assert(parts@[i as int]@.subrange(0, parts@[i as int]@.len() as int) =~= parts@[i as int]@);
        assert(pieces_view(parts@)[i as int] == parts@[i as int]@);
        assert(x@ == ident_of(split_on(id@, '.')[i as int]));
        let ghost old_r = r@;
        r.push(x);
        assert(ids_view(r@) =~= ids_view(old_r).push(x@));
        assert(build_ids(split_on(id@, '.').take(i + 1)) =~= build_ids(
            split_on(id@, '.').take(i as int),
        ).push(ident_of(split_on(id@, '.')[i as int])));
        i = i + 1;
    }
    assert(split_on(id@, '.').take(parts@.len() as int) =~= split_on(id@, '.'));
    if !base.is_unnumbered() {
        r.push(Identifier::Numeric(base.value()));
    }
    assert(ids_view(r@) =~= replacement(id@, base));
    r
}

/// The `pre` step on a prerelease list.
fn pre_step_exec(
    pre: &mut Vec<Identifier>,
    identifier: Option<&str>,
    base: IdentifierBase,
) -> (ok: bool)
    requires
        forall|i: int|
            0 <= i < old(pre)@.len() ==> (#[trigger] ids_view(old(pre)@)[i] matches IdentView::Num(
                n,
            ) ==> n < u64::MAX),
    ensures
        ({
            let v = VersionView {
                major: 0,
                minor: 0,
                patch: 0,
                pre: ids_view(old(pre)@),
                build: Seq::empty(),
            };
            match pre_step(v, opt_text(identifier), base) {
                Some(w) => ok && ids_view(final(pre)@) == w.pre,
                None => !ok,
            }
        }),
{
    let ghost v = VersionView {
        major: 0,
        minor: 0,
        patch: 0,
        pre: ids_view(pre@),
        build: Seq::empty(),
    };
    let base_value = base.value();
    if pre.len() == 0 {
        pre.push(Identifier::Numeric(base_value));
        assert(ids_view(pre@) =~= seq![IdentView::Num(base_value)]);
    } else {
        let mut i: usize = pre.len();
        while i > 0 && !pre[i - 1].is_numeric()
            invariant
                i <= pre@.len(),
                ids_view(pre@) == v.pre,
                last_numeric(v.pre, v.pre.len() as int) == last_numeric(v.pre, i as int),
            decreases i,
        {
            i = i - 1;
        }
        if i > 0 {
            let n = match &pre[i - 1] {
                Identifier::Numeric(n) => *n,
                Identifier::Alphanumeric(_) => 0,
            };
            assert(v.pre[i - 1] == IdentView::Num(n));
            pre.set(i - 1, Identifier::Numeric(n + 1));
            assert(ids_view(pre@) =~= v.pre.update(i - 1, IdentView::Num((n + 1) as u64)));
        } else {
            let mut joined: Vec<char> = Vec::new();
            push_ids(&mut joined, pre);
            assert(joined@ =~= join_ids(v.pre));
            let same = match identifier {
                Some(id) => {
                    let idv = chars_of(id);
                    crate::text::same_text(&idv, &joined)
                },
                None => false,
            };
            if same && base.is_unnumbered() {
                return false;
            }
            pre.push(Identifier::Numeric(base_value));
            assert(ids_view(pre@) =~= v.pre.push(IdentView::Num(base_value)));
        }
    }
    match identifier {
        Some(id) => {
            if is_prerelease_identifier(pre, id) {
                let t = chars_of(id);
                let parts = split_char(&t, '.');
                let at = parts.len();
                let has_numeric_suffix = at < pre.len() && pre[at].is_numeric();
                if !has_numeric_suffix {
                    *pre = replacement_exec(id, base);
                }
            } else {
                *pre = replacement_exec(id, base);
            }
        },
        None => {},
    }
    true
}

impl SemVer {
    /// Increment a version.
    ///
    /// `identifier` names the prerelease tag for the `pre*` releases:
    /// `premajor` with `beta` on `1.2.3` gives `2.0.0-beta.0`.
    pub fn inc(&self, release: Release, identifier: Option<&str>, base: IdentifierBase) -> (r:
        Result<SemVer>)
        requires
            inc_fits(self@),
        ensures
            match inc_spec(self@, release, opt_text(identifier), base, self.options.loose) {
                Some(w) => r is Ok && r->Ok_0@ == w && r->Ok_0.options == self.options,
                None => r matches Err(Error::InvalidIncrement { kind }) && kind@ == inc_refusal(
                    self@,
                    release,
                    opt_text(identifier),
                    base,
                    self.options.loose,
                ),
            },
    {
        // A prerelease increment needs something to call the tag.
        if release.is_pre() {
            if identifier.is_none() && base.is_unnumbered() {
                return Err(Error::InvalidIncrement { kind: string_of(&chars_of("identifier is empty")) });
            }
            match identifier {
                Some(id) => {
                    if !is_valid_prerelease_tag(id, self.options.loose) {
                        let mut kind = chars_of("invalid identifier: ");
                        let idc = chars_of(id);
                        push_all(&mut kind, &idc);
                        return Err(Error::InvalidIncrement { kind: string_of(&kind) });
                    }
                },
                None => {},
            }
        }
        let mut out = self.copy();
        match release {
            Release::PreMajor => {
                out.prerelease = no_ids();
                out.patch = 0;
                out.minor = 0;
                out.major = out.major + 1;
                if !pre_step_exec(&mut out.prerelease, identifier, base) {
                    return Err(Error::InvalidIncrement { kind: string_of(&chars_of("identifier already exists")) });
                }
            },
            Release::PreMinor => {
                out.prerelease = no_ids();
                out.patch = 0;
                out.minor = out.minor + 1;
                if !pre_step_exec(&mut out.prerelease, identifier, base) {
                    return Err(Error::InvalidIncrement { kind: string_of(&chars_of("identifier already exists")) });
                }
            },
            Release::PrePatch => {
                // Any existing prerelease is irrelevant here: drop it first
                // so the patch bump is unconditional.
                out.prerelease = no_ids();
                out.patch = out.patch + 1;
                if !pre_step_exec(&mut out.prerelease, identifier, base) {
                    return Err(Error::InvalidIncrement { kind: string_of(&chars_of("identifier already exists")) });
                }
            },
            Release::PreRelease => {
                // On a plain version this behaves as prepatch.
                if out.prerelease.len() == 0 {
                    out.patch = out.patch + 1;
                }
                if !pre_step_exec(&mut out.prerelease, identifier, base) {
                    return Err(Error::InvalidIncrement { kind: string_of(&chars_of("identifier already exists")) });
                }
            },
            Release::ReleaseOnly => {
                if out.prerelease.len() == 0 {
                    let mut kind = chars_of("version ");
                    let shown = chars_of_string(&out.version());
                    push_all(&mut kind, &shown);
                    let tail = chars_of(" is not a prerelease");
                    push_all(&mut kind, &tail);
                    return Err(Error::InvalidIncrement { kind: string_of(&kind) });
                }
                out.prerelease = no_ids();
            },
            Release::Major => {
                // A prerelease of an x.0.0 is already before that release,
                // so releasing it *is* the major bump.
                if out.minor != 0 || out.patch != 0 || out.prerelease.len() == 0 {
                    out.major = out.major + 1;
                }
                out.minor = 0;
                out.patch = 0;
                out.prerelease = no_ids();
            },
            Release::Minor => {
                if out.patch != 0 || out.prerelease.len() == 0 {
                    out.minor = out.minor + 1;
                }
                out.patch = 0;
                out.prerelease = no_ids();
            },
            Release::Patch => {
                if out.prerelease.len() == 0 {
                    out.patch = out.patch + 1;
                }
                out.prerelease = no_ids();
            },
            Release::Pre => {
                if !pre_step_exec(&mut out.prerelease, identifier, base) {
                    return Err(Error::InvalidIncrement { kind: string_of(&chars_of("identifier already exists")) });
                }
            },
        }
        Ok(out)
    }
}


// ── what an increment does ──────────────────────────────────────────────
/// Splitting always gives at least one part.
proof fn lemma_split_nonempty(s: Seq<char>, c: char)
    ensures
        split_on(s, c).len() >= 1,
    decreases s.len(),
{
    if s.len() > 0 {
        lemma_split_nonempty(s.drop_last(), c);
    }
}

/// The last numeric identifier, when there is one, lies among the first
/// `i`.
proof fn lemma_last_numeric_range(pre: Seq<IdentView>, i: int)
    requires
        0 <= i,
    ensures
        last_numeric(pre, i) < i,
        last_numeric(pre, i) >= -1,
    decreases i,
{
    if i > 0 {
        lemma_last_numeric_range(pre, i - 1);
    }
}

/// The `pre` step keeps the numbers, always leaves a prerelease, and,
/// given a tag, a prerelease that begins with the tag's identifiers.
proof fn lemma_pre_step_shape(v: VersionView, identifier: Option<Seq<char>>, base: IdentifierBase)
    requires
        pre_step(v, identifier, base) is Some,
    ensures
        ({
            let w = pre_step(v, identifier, base)->Some_0;
            &&& w.major == v.major && w.minor == v.minor && w.patch == v.patch
            &&& w.pre.len() > 0
            &&& identifier matches Some(id) ==> starts_with_tag(w.pre, id)
        }),
{
    let bv = base_value(base);
    let p1 = if v.pre.len() == 0 {
        Some(seq![IdentView::Num(bv)])
    } else {
        let k = last_numeric(v.pre, v.pre.len() as int);
        if k >= 0 {
            let n = v.pre[k]->Num_0;
            Some(v.pre.update(k, IdentView::Num((n + 1) as u64)))
        } else if identifier == Some(join_ids(v.pre)) && base is Unnumbered {
            None
        } else {
            Some(v.pre.push(IdentView::Num(bv)))
        }
    };
    assert(p1 is Some);
    let p = p1->Some_0;
    if v.pre.len() == 0 {
        assert(p.len() == 1);
    } else {
        let k = last_numeric(v.pre, v.pre.len() as int);
        if k >= 0 {
            lemma_last_numeric_range(v.pre, v.pre.len() as int);
            assert(p.len() == v.pre.len());
        } else {
            assert(p.len() == v.pre.len() + 1);
        }
    }
    if let Some(id) = identifier {
        lemma_split_nonempty(id, '.');
        let parts = split_on(id, '.');
        let named = build_ids(parts);
        let r = replacement(id, base);
        assert(named.len() == parts.len());
        assert(r.len() >= named.len());
        assert forall|i: int| 0 <= i < parts.len() implies r[i] == ident_of(#[trigger] parts[i]) by {
            assert(named[i] == ident_of(parts[i]));
            if !(base is Unnumbered) {
                assert(r[i] == named[i]);
            }
        }
        assert(starts_with_tag(r, id));
    }
}

/// What each release kind does to the numbers and the prerelease of a
/// version: `major`, `minor` and `patch` bump their number (a prerelease
/// of `x.0.0`, `x.y.0` or `x.y.z` is released instead) and zero the lower
/// ones, leaving no prerelease; `premajor`, `preminor` and `prepatch` bump
/// their number, zero the lower ones and start a prerelease; `prerelease`
/// starts one on the next patch of a release, or keeps the numbers of a
/// prerelease; `pre` keeps the numbers; `release` drops the prerelease.
/// A prerelease kind given a tag leaves a prerelease that begins with the
/// tag's identifiers.
pub proof fn lemma_inc_shape(
    v: VersionView,
    release: Release,
    identifier: Option<Seq<char>>,
    base: IdentifierBase,
    loose: bool,
)
    requires
        inc_fits(v),
        inc_spec(v, release, identifier, base, loose) is Some,
    ensures
        ({
            let w = inc_spec(v, release, identifier, base, loose)->Some_0;
            &&& release is Major ==> w.major == (if v.minor == 0 && v.patch == 0 && v.pre.len() > 0 {
                v.major as int
            } else {
                v.major + 1
            }) && w.minor == 0 && w.patch == 0 && w.pre.len() == 0
            &&& release is Minor ==> w.major == v.major && w.minor == (if v.patch == 0 && v.pre.len() > 0 {
                v.minor as int
            } else {
                v.minor + 1
            }) && w.patch == 0 && w.pre.len() == 0
            &&& release is Patch ==> w.major == v.major && w.minor == v.minor && w.patch == (if v.pre.len()
                > 0 {
                v.patch as int
            } else {
                v.patch + 1
            }) && w.pre.len() == 0
            &&& release is PreMajor ==> w.major == v.major + 1 && w.minor == 0 && w.patch == 0
                && w.pre.len() > 0
            &&& release is PreMinor ==> w.major == v.major && w.minor == v.minor + 1 && w.patch == 0
                && w.pre.len() > 0
            &&& release is PrePatch ==> w.major == v.major && w.minor == v.minor && w.patch == v.patch + 1
                && w.pre.len() > 0
            &&& release is PreRelease ==> w.major == v.major && w.minor == v.minor && w.patch == (if v.pre.len()
                == 0 {
                v.patch + 1
            } else {
                v.patch as int
            }) && w.pre.len() > 0
            &&& release is Pre ==> w.major == v.major && w.minor == v.minor && w.patch == v.patch
                && w.pre.len() > 0
            &&& release is ReleaseOnly ==> v.pre.len() > 0 && w.major == v.major && w.minor == v.minor
                && w.patch == v.patch && w.pre.len() == 0
            &&& (is_pre_release(release) && identifier is Some) ==> starts_with_tag(
                w.pre,
                identifier->Some_0,
            )
        }),
{
    match release {
        Release::PreMajor => lemma_pre_step_shape(
            VersionView { major: (v.major + 1) as u64, minor: 0, patch: 0, pre: Seq::empty(), ..v },
            identifier,
            base,
        ),
        Release::PreMinor => lemma_pre_step_shape(
            VersionView { minor: (v.minor + 1) as u64, patch: 0, pre: Seq::empty(), ..v },
            identifier,
            base,
        ),
        Release::PrePatch => lemma_pre_step_shape(
            patch_step(VersionView { pre: Seq::empty(), ..v }),
            identifier,
            base,
        ),
        Release::PreRelease => if v.pre.len() == 0 {
            lemma_pre_step_shape(patch_step(v), identifier, base)
        } else {
            lemma_pre_step_shape(v, identifier, base)
        },
        Release::Pre => lemma_pre_step_shape(v, identifier, base),
        _ => {},
    }
}

/// Which increments succeed: `major`, `minor` and `patch` always;
/// `release` exactly on a prerelease; a prerelease kind whenever no tag
/// is given and the base starts a number.
pub proof fn lemma_inc_succeeds(
    v: VersionView,
    release: Release,
    identifier: Option<Seq<char>>,
    base: IdentifierBase,
    loose: bool,
)
    ensures
        (release is Major || release is Minor || release is Patch) ==> inc_spec(
            v,
            release,
            identifier,
            base,
            loose,
        ) is Some,
        release is ReleaseOnly ==> (inc_spec(v, release, identifier, base, loose) is Some <==> v.pre.len()
            > 0),
        (is_pre_release(release) && identifier is None && !(base is Unnumbered)) ==> inc_spec(
            v,
            release,
            identifier,
            base,
            loose,
        ) is Some,
{
}

/// Every release kind but `pre` and `prerelease` (which may move to a
/// different tag) gives a version of higher precedence.
pub proof fn lemma_inc_raises(
    v: VersionView,
    release: Release,
    identifier: Option<Seq<char>>,
    base: IdentifierBase,
    loose: bool,
)
    requires
        inc_fits(v),
        inc_spec(v, release, identifier, base, loose) is Some,
        !(release is Pre),
        !(release is PreRelease),
    ensures
        ver_order(v, inc_spec(v, release, identifier, base, loose)->Some_0) < 0,
{
    lemma_inc_shape(v, release, identifier, base, loose);
}


/// Raising one numeric identifier raises the list.
proof fn lemma_bump_raises(a: Seq<IdentView>, k: int)
    requires
        0 <= k < a.len(),
        a[k] matches IdentView::Num(n) && n < u64::MAX,
    ensures
        list_order(a, a.update(k, IdentView::Num((a[k]->Num_0 + 1) as u64))) < 0,
    decreases k,
{
    let b = a.update(k, IdentView::Num((a[k]->Num_0 + 1) as u64));
    if k > 0 {
        assert(b[0] == a[0]);
        lemma_id_order_antisym(a[0], a[0]);
        assert(b.drop_first() =~= a.drop_first().update(k - 1, IdentView::Num((a[k]->Num_0 + 1) as u64)));
        lemma_bump_raises(a.drop_first(), k - 1);
    }
}

/// A list ranks below itself with one more identifier.
proof fn lemma_push_raises(a: Seq<IdentView>, e: IdentView)
    ensures
        list_order(a, a.push(e)) < 0,
    decreases a.len(),
{
    if a.len() > 0 {
        assert(a.push(e)[0] == a[0]);
        lemma_id_order_antisym(a[0], a[0]);
        assert(a.push(e).drop_first() =~= a.drop_first().push(e));
        lemma_push_raises(a.drop_first(), e);
    }
}

/// Without a tag, `prerelease` always gives a version of higher
/// precedence, and so does `pre` on a prerelease: the last number of the
/// prerelease counts up, or a number is appended.
pub proof fn lemma_inc_counts_up(
    v: VersionView,
    release: Release,
    base: IdentifierBase,
    loose: bool,
)
    requires
        inc_fits(v),
        release is PreRelease || (release is Pre && v.pre.len() > 0),
        inc_spec(v, release, None, base, loose) is Some,
    ensures
        ver_order(v, inc_spec(v, release, None, base, loose)->Some_0) < 0,
{
    lemma_inc_shape(v, release, None, base, loose);
    if v.pre.len() > 0 {
        let k = last_numeric(v.pre, v.pre.len() as int);
        lemma_last_numeric_range(v.pre, v.pre.len() as int);
        if k >= 0 {
            lemma_last_numeric_is_num(v.pre, v.pre.len() as int);
            assert(v.pre[k] matches IdentView::Num(n) && n < u64::MAX);
            lemma_bump_raises(v.pre, k);
        } else {
            lemma_push_raises(v.pre, IdentView::Num(base_value(base)));
        }
    }
}

/// The index found is that of a numeric identifier.
proof fn lemma_last_numeric_is_num(pre: Seq<IdentView>, i: int)
    requires
        0 <= i <= pre.len(),
    ensures
        last_numeric(pre, i) >= 0 ==> pre[last_numeric(pre, i)] is Num,
    decreases i,
{
    if i > 0 {
        lemma_last_numeric_is_num(pre, i - 1);
    }
}


/// `pre`, or `prerelease` on a prerelease, given a tag, on a prerelease
/// that is exactly the tag's identifiers followed by a number, counts
/// that number up.
pub proof fn lemma_inc_tag_counts_up(
    v: VersionView,
    release: Release,
    id: Seq<char>,
    base: IdentifierBase,
    loose: bool,
    n: u64,
)
    requires
        inc_fits(v),
        release is Pre || release is PreRelease,
        valid_tag(id, loose),
        v.pre == build_ids(split_on(id, '.')).push(IdentView::Num(n)),
    ensures
        inc_spec(v, release, Some(id), base, loose) == Some(
            VersionView { pre: build_ids(split_on(id, '.')).push(IdentView::Num((n + 1) as u64)), ..v },
        ),
{
    let parts = split_on(id, '.');
    let t = build_ids(parts);
    let len = v.pre.len() as int;
    assert(v.pre[len - 1] == IdentView::Num(n));
    assert(last_numeric(v.pre, len) == len - 1);
    assert(v.pre[len - 1] matches IdentView::Num(m) && m < u64::MAX);
    let p = v.pre.update(len - 1, IdentView::Num((n + 1) as u64));
    assert(p =~= t.push(IdentView::Num((n + 1) as u64)));
    assert forall|i: int| 0 <= i < parts.len() implies p[i] == ident_of(#[trigger] parts[i]) by {
        assert(p[i] == t[i]);
    }
    assert(starts_with_tag(p, id));
    assert(p[parts.len() as int] is Num);
}

/// A prerelease kind given a tag starts the prerelease afresh at the
/// tag's identifiers followed by the base number (no number when the base
/// is unnumbered): always for `premajor`, `preminor` and `prepatch`, and
/// for `pre` and `prerelease` on a release.
pub proof fn lemma_inc_tag_starts(
    v: VersionView,
    release: Release,
    id: Seq<char>,
    base: IdentifierBase,
    loose: bool,
)
    requires
        inc_fits(v),
        release is PreMajor || release is PreMinor || release is PrePatch || ((release is Pre
            || release is PreRelease) && v.pre.len() == 0),
        valid_tag(id, loose),
    ensures
        inc_spec(v, release, Some(id), base, loose) matches Some(w) && w.pre == (if base is Unnumbered {
            build_ids(split_on(id, '.'))
        } else {
            build_ids(split_on(id, '.')).push(IdentView::Num(if base is One { 1 } else { 0 }))
        }),
{
    lemma_split_nonempty(id, '.');
    let parts = split_on(id, '.');
    let bv = base_value(base);
    let p = seq![IdentView::Num(bv)];
    if starts_with_tag(p, id) {
        assert(parts.len() as int >= p.len());
    }
}

} // verus!
