//! The error kinds that the store and its engines report.
use vstd::prelude::*;

verus! {

/// Everything that can go wrong in the store or in an engine behind it.
#[derive(Clone, Copy, Debug, PartialEq, Eq, Structural)]
pub enum KvsError {
    /// An underlying disk or socket failure.
    Io,
    /// A `remove` of a key that is not bound.
    NotFound,
    /// A key or value that no record can carry (empty key, or a record
    /// separator inside key or value).
    MalformedRecord,
    /// A terminated record in the middle of a segment failed to decode.
    Corrupt,
    /// A stored value is not valid UTF-8.
    FromUtf8Error,
    /// A failure inside the ordered-tree backend.
    SledError,
}

impl KvsError {
    /// A short name for the error, for diagnostics outside the library.
    pub fn name(&self) -> &'static str {
        match self {
            KvsError::Io => "io error",
            KvsError::NotFound => "Key not found",
            KvsError::MalformedRecord => "malformed record",
            KvsError::Corrupt => "corrupt log",
            KvsError::FromUtf8Error => "value is not utf-8",
            KvsError::SledError => "sled error",
        }
    }
}

} // verus!
