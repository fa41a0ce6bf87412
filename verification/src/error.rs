//! Errors, each carrying the text that failed and a short reason.
use vstd::prelude::*;

verus! {

/// Every way a call into this crate can fail.
#[derive(Debug, PartialEq, Eq, Clone)]
pub enum Error {
    /// A version string did not parse.
    InvalidVersion {
        /// The text that was given, after trimming and prefix removal.
        input: String,
        /// A short, human-readable reason it was rejected.
        reason: &'static str,
    },
    /// The input exceeded `MAX_LENGTH` before any parsing was attempted.
    TooLong {
        /// The length of the input that was rejected, in bytes.
        len: usize,
        /// The maximum length allowed.
        max: usize,
    },
    /// A single comparator (e.g. `>=1.2.3`) did not parse.
    InvalidComparator {
        /// The text that was given.
        input: String,
        /// A short, human-readable reason it was rejected.
        reason: &'static str,
    },
    /// A range expression (e.g. `^1.2.3 || ~2.0.0`) did not parse.
    InvalidRange {
        /// The text that was given.
        input: String,
        /// A short, human-readable reason it was rejected.
        reason: &'static str,
    },
    /// An increment was asked for with a release kind or identifier that
    /// cannot be used.
    InvalidIncrement {
        /// The release kind or identifier text that was rejected.
        kind: String,
    },
}

/// This crate's `Result`, with [`Error`] as the error type.
pub type Result<T> = std::result::Result<T, Error>;

} // verus!
