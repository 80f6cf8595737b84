use vstd::prelude::*;

verus! {

/// The ways an operation of a block store can fail.
#[derive(Clone, Copy, Debug, PartialEq, Eq, Structural)]
pub enum KvError {
    /// The index or path is absent.
    NotFound,
    /// The name is already taken.
    AlreadyExists,
    /// The entry has the wrong type, or an offset lies beyond the data.
    PermissionDenied,
    /// A path component is not a plain name.
    FileNameNotAllowed,
    /// Stored bytes do not have the expected form.
    InvalidData,
    /// A block is too short to carry its header.
    UnexpectedEof,
    /// A value cannot be packed into a page.
    WriteZero,
    /// The underlying storage failed.
    Io,
    /// An internal invariant was violated.
    LocalError,
}

/// Whether `r` is the failure `e`.
pub open spec fn fails_with<T>(r: Result<T, KvError>, e: KvError) -> bool {
    r is Err && r->Err_0 == e
}

} // verus!
