//! Bounds that node-semver enforces (JavaScript's safe integers), and
//! parsing options.
use vstd::prelude::*;

verus! {

/// The version of the SemVer spec implemented, not of this crate.
pub const SEMVER_SPEC_VERSION: &'static str = "2.0.0";

/// Longest version string accepted, in bytes. Anything longer is invalid.
pub const MAX_LENGTH: usize = 256;

/// Largest integer a version component may hold: JavaScript's
/// `Number.MAX_SAFE_INTEGER`, 2^53 - 1. A larger component is rejected.
pub const MAX_SAFE_INTEGER: u64 = 9_007_199_254_740_991;

/// Longest component `coerce` will pull out of arbitrary text.
pub const MAX_SAFE_COMPONENT_LENGTH: usize = 16;

/// Longest build identifier: `MAX_LENGTH` minus the six characters of the
/// shortest version that can carry one, `0.0.0+`.
pub const MAX_SAFE_BUILD_LENGTH: usize = 250;

/// Parsing options.
///
/// A bare boolean means `loose`, as in node-semver's shorthand.
#[derive(Debug, Clone, Copy, PartialEq, Eq, Structural)]
pub struct Options {
    /// Accept the loosened grammar (leading zeros coerce, `v`/`=`
    /// prefixes, an omitted prerelease hyphen) instead of strict SemVer.
    pub loose: bool,
    /// Let a prerelease version satisfy a range even when no comparator
    /// in that range names a matching prerelease.
    pub include_prerelease: bool,
}

impl Options {
    /// Loose options, as a value for contracts.
    pub open spec fn loose_spec() -> Options {
        Options { loose: true, include_prerelease: false }
    }

    /// Strict parsing, no prereleases admitted beyond the usual rule.
    pub fn new() -> (o: Options)
        ensures
            o == (Options { loose: false, include_prerelease: false }),
    {
        Options { loose: false, include_prerelease: false }
    }

    /// Loose parsing, node-semver's `{loose: true}`.
    pub fn loose() -> (o: Options)
        ensures
            o == (Options { loose: true, include_prerelease: false }),
    {
        Options { loose: true, include_prerelease: false }
    }

    /// Set `loose` and return `self`, for chaining.
    pub fn with_loose(self, loose: bool) -> (o: Options)
        ensures
            o == (Options { loose, ..self }),
    {
        Options { loose, ..self }
    }

    /// Set `include_prerelease` and return `self`, for chaining.
    pub fn with_include_prerelease(self, admit_pre: bool) -> (o: Options)
        ensures
            o == (Options { include_prerelease: admit_pre, ..self }),
    {
        Options { include_prerelease: admit_pre, ..self }
    }
}

impl Default for Options {
    fn default() -> (o: Options)
        ensures
            o == (Options { loose: false, include_prerelease: false }),
    {
        Options { loose: false, include_prerelease: false }
    }
}

impl From<bool> for Options {
    /// `true` means loose, as in node-semver's shorthand.
    fn from(loose: bool) -> (o: Options) {
        Options { loose, include_prerelease: false }
    }
}

impl vstd::std_specs::convert::FromSpecImpl<bool> for Options {
    open spec fn obeys_from_spec() -> bool {
        true
    }

    open spec fn from_spec(loose: bool) -> Options {
        Options { loose, include_prerelease: false }
    }
}

/// Anything that stands for parsing options: a bare `bool` (meaning
/// `loose`) or an [`Options`] value.
pub trait IntoOptions: Copy {
    spec fn as_options(self) -> Options;

    fn into_options(self) -> (o: Options)
        ensures
            o == self.as_options(),
    ;
}

impl IntoOptions for bool {
    open spec fn as_options(self) -> Options {
        Options { loose: self, include_prerelease: false }
    }

    fn into_options(self) -> (o: Options) {
        Options { loose: self, include_prerelease: false }
    }
}

impl IntoOptions for Options {
    open spec fn as_options(self) -> Options {
        self
    }

    fn into_options(self) -> (o: Options) {
        self
    }
}

} // verus!
