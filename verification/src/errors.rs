//! The failure kinds that operations of this library report.

use vstd::prelude::*;

verus! {

/// What went wrong: a filesystem error, a failed removal of the pending
/// marker, a network failure or missing ETag, a codec failure, or a
/// malformed package record.
#[derive(Clone, Copy, Debug, PartialEq, Eq, Structural)]
pub enum Error {
    IOError,
    RemoveError,
    DownloadError,
    DecompressionError,
    ParseError,
}

} // verus!
