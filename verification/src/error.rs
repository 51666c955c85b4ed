//! Error taxonomy of the reader core.

use vstd::prelude::*;

verus! {

/// Errors surfaced by the reader core.
///
/// - `IO`: transport or layout failure (short file, magic mismatch, length
///   disagreement, missing page info, out-of-range request).
/// - `Schema`: logical-type decode failure or unsupported type.
/// - `Arrow`: row-count mismatch or structural inconsistency on assembly.
#[derive(Debug, Clone, PartialEq, Eq)]
pub enum Error {
    IO(String),
    Schema(String),
    Arrow(String),
}

impl Error {
    pub open spec fn is_io(&self) -> bool {
        matches!(self, Error::IO(_))
    }

    pub open spec fn is_schema(&self) -> bool {
        matches!(self, Error::Schema(_))
    }

    pub open spec fn is_arrow(&self) -> bool {
        matches!(self, Error::Arrow(_))
    }

    /// Error kind and message as text, for callers that report failures.
    pub fn message(&self) -> &str {
        match self {
            Error::IO(m) => m.as_str(),
            Error::Schema(m) => m.as_str(),
            Error::Arrow(m) => m.as_str(),
        }
    }
}

pub type Result<T> = core::result::Result<T, Error>;

} // verus!
