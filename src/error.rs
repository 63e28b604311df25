//! The kinds of failure that the store reports.
use vstd::prelude::*;

verus! {

/// Why an operation failed. Logical absence is `None`, never an error.
#[derive(Clone, Copy, Debug, PartialEq, Eq, Structural)]
pub enum ErrorKind {
    /// An underlying file operation failed.
    IoError,
    /// Stored bytes do not decode: bad checksum, truncation, unknown tag,
    /// bad magic, a size below the minimum.
    Corruption,
    /// The request itself is malformed.
    InvalidArgument,
}

} // verus!
