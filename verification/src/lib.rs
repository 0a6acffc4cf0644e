//! An immutable, read-optimized columnar store for genomic tabular data.
//!
//! A database file holds, per dataset and chromosome, a run of compressed
//! row blocks followed by a sparse positional index.  The builder turns
//! position-sorted rows into such a file; the query engine resolves a
//! position range to the blocks that may contain it, decompresses them and
//! streams the rows inside the range.
use vstd::prelude::*;

pub mod compression;
pub mod config;
pub mod database;
pub mod deserialize;
pub mod parallel;
pub mod query;
pub mod rows;
pub mod tsv_reader;
pub mod varint;

verus! {

/// The decimal digits of `n`, for diagnostics.
pub fn u64_to_string(n: u64) -> String {
    let mut digits: Vec<u8> = Vec::new();
    let mut cur = n;
    loop
        invariant_except_break
            true,
        ensures
            digits@.len() >= 1,
        decreases cur,
    {
        digits.push(0x30 + ((cur % 10) as u8));
        cur = cur / 10;
        if cur == 0 {
            break ;
        }
    }
    let mut out: Vec<u8> = Vec::new();
    let mut i = digits.len();
    while i > 0
        invariant
            i <= digits@.len(),
        decreases i,
    {
        i = i - 1;
        out.push(digits[i]);
    }
    match crate::deserialize::string_from_utf8(out) {
        Some(text) => text,
        None => String::new(),
    }
}

/// Errors surfaced by the builder and the query engine.
#[derive(Debug, Clone)]
pub enum DbError {
    /// An underlying byte-level read or write failed.
    Io(String),
    /// Wrong magic, truncated structure, unknown type tag, malformed varint
    /// or a non-UTF-8 string cell.
    InvalidFormat(String),
    /// The header's version byte is unknown to this reader.
    UnsupportedVersion(u8),
    /// A feature reserved by the format but not implemented.
    UnsupportedFeature(String),
    /// A dataset name or chromosome absent from the header.
    NotFound(String),
    /// An index or offset past the file bounds.
    OutOfRange(String),
    /// A configuration invariant was violated.
    ValidationError(String),
    /// A source cell failed to parse to its declared type.
    ParseError(String),
}

impl DbError {
    /// The same error with `context` prefixed to its message; the kind
    /// is kept.
    pub fn with_context(self, context: String) -> (r: DbError)
        ensures
            r is Io <==> self is Io,
            r is InvalidFormat <==> self is InvalidFormat,
            r is UnsupportedVersion <==> self is UnsupportedVersion,
            r is UnsupportedFeature <==> self is UnsupportedFeature,
            r is NotFound <==> self is NotFound,
            r is OutOfRange <==> self is OutOfRange,
            r is ValidationError <==> self is ValidationError,
            r is ParseError <==> self is ParseError,
    {
        let sep = <String as vstd::string::StringExecFns>::from_str(": ");
        match self {
            DbError::Io(m) => DbError::Io(
                vstd::string::StringExecFns::concat(vstd::string::StringExecFns::concat(context, sep.as_str()), m.as_str()),
            ),
            DbError::InvalidFormat(m) => DbError::InvalidFormat(
                vstd::string::StringExecFns::concat(vstd::string::StringExecFns::concat(context, sep.as_str()), m.as_str()),
            ),
            DbError::UnsupportedVersion(v) => DbError::UnsupportedVersion(v),
            DbError::UnsupportedFeature(m) => DbError::UnsupportedFeature(
                vstd::string::StringExecFns::concat(vstd::string::StringExecFns::concat(context, sep.as_str()), m.as_str()),
            ),
            DbError::NotFound(m) => DbError::NotFound(
                vstd::string::StringExecFns::concat(vstd::string::StringExecFns::concat(context, sep.as_str()), m.as_str()),
            ),
            DbError::OutOfRange(m) => DbError::OutOfRange(
                vstd::string::StringExecFns::concat(vstd::string::StringExecFns::concat(context, sep.as_str()), m.as_str()),
            ),
            DbError::ValidationError(m) => DbError::ValidationError(
                vstd::string::StringExecFns::concat(vstd::string::StringExecFns::concat(context, sep.as_str()), m.as_str()),
            ),
            DbError::ParseError(m) => DbError::ParseError(
                vstd::string::StringExecFns::concat(vstd::string::StringExecFns::concat(context, sep.as_str()), m.as_str()),
            ),
        }
    }
}

} // verus!

