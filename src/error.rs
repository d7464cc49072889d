//! The kinds of failure that the engine reports.
use vstd::prelude::*;

verus! {

/// Why an operation failed.
#[derive(Clone, Copy, Debug, PartialEq, Eq, Structural)]
pub enum Error {
    /// A missing object, ref or path.
    NotFound,
    /// A stored object that does not decompress or decode.
    CorruptObject,
    /// A malformed id, name or entry.
    InvalidInput,
    /// A branch that exists already.
    AlreadyExists,
    /// A failure of the underlying storage or encoder.
    IoFailure,
}

} // verus!
