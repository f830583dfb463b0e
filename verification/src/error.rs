//! The error taxonomy of the storage engine.

use vstd::prelude::*;

verus! {

/// Every failure a storage operation can report.
#[derive(Debug, Clone, PartialEq, Eq)]
pub enum Error {
    /// An I/O operation on the underlying storage failed.
    Storage(String),
    /// Reading the system clock failed.
    Time,
    /// Encoding or decoding a record failed.
    Serialize(String),
    /// The index log is inconsistent.
    Index(String),
    /// On-disk bytes are malformed.
    Format(String),
    /// A referenced resource is absent.
    Missing(String),
    /// The operation is not supported.
    Unsupported(String),
    /// The configuration is invalid.
    Config(String),
    /// A compaction pass failed.
    Compact(String),
}

impl Error {
    /// A short name for the error's kind, for display by callers.
    pub fn kind(&self) -> (r: &'static str)
        ensures
            r@ == match self {
                Error::Storage(_) => "storage"@,
                Error::Time => "time"@,
                Error::Serialize(_) => "serialize"@,
                Error::Index(_) => "index"@,
                Error::Format(_) => "format"@,
                Error::Missing(_) => "missing"@,
                Error::Unsupported(_) => "unsupported"@,
                Error::Config(_) => "config"@,
                Error::Compact(_) => "compact"@,
            },
    {
        match self {
            Error::Storage(_) => "storage",
            Error::Time => "time",
            Error::Serialize(_) => "serialize",
            Error::Index(_) => "index",
            Error::Format(_) => "format",
            Error::Missing(_) => "missing",
            Error::Unsupported(_) => "unsupported",
            Error::Config(_) => "config",
            Error::Compact(_) => "compact",
        }
    }
}

} // verus!
