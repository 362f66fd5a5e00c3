//! The closed set of failure kinds of transactional filesystem operations.

use vstd::prelude::*;

verus! {

/// An error encountered during a transactional filesystem operation.
///
/// `Conflict` reports a lock acquisition that would have to wait (or a state
/// transition refused by the lock, such as writing after a commit at the same
/// transaction); `Outdated` reports an attempt to act at a transaction older
/// than an existing commit or finalize; the remaining kinds mirror the
/// filesystem-level failures.
#[derive(Clone, Copy, Debug, PartialEq, Eq, Structural)]
pub enum Error {
    /// A lock acquisition would block, or a lock refused the transition.
    Conflict,
    /// The transaction is older than an existing commit or finalize.
    Outdated,
    /// An entry with the requested name already exists.
    AlreadyExists,
    /// The requested entry or canonical file is missing.
    NotFound,
    /// The requested type disagrees with the entry's actual type.
    InvalidData,
    /// A name could not be parsed as a valid entry name.
    Parse,
}

impl Error {
    /// A human-readable description of this error kind.
    pub fn message(&self) -> (r: &'static str)
        ensures
            r@.len() > 0,
    {
        proof {
            reveal_strlit("lock conflict");
            reveal_strlit("transaction outdated");
            reveal_strlit("entry already exists");
            reveal_strlit("not found");
            reveal_strlit("entry type mismatch");
            reveal_strlit("invalid name");
        }
        match self {
            Error::Conflict => "lock conflict",
            Error::Outdated => "transaction outdated",
            Error::AlreadyExists => "entry already exists",
            Error::NotFound => "not found",
            Error::InvalidData => "entry type mismatch",
            Error::Parse => "invalid name",
        }
    }
}

/// The result of a transactional filesystem operation.
pub type Result<T> = core::result::Result<T, Error>;

} // verus!
