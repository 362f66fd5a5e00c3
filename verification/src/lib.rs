//! A verified transactional overlay for a file-backed cache.
//!
//! This crate superimposes multi-version concurrency control (MVCC) over a
//! plain directory tree, so that directories and files can be read, written,
//! created and deleted as part of totally ordered transactions and then
//! atomically committed, rolled back or finalized.
//!
//! The library models the on-disk state (canonical entries and the hidden
//! `.txfs` version subtree) and the lock state (committed versions, the
//! pending writer, reservations and outstanding guards) as plain verified
//! data; an embedding program performs the actual disk reads and writes and
//! mirrors them against this model.

use vstd::prelude::*;

pub mod dir;
pub mod error;
pub mod file;
pub mod name;
pub mod txn;

pub use dir::Dir;
pub use dir::DirEntry;
pub use dir::FsNode;
pub use error::Error;
pub use error::Result;
pub use file::File;
pub use file::FileVersionRead;
pub use file::FileVersionWrite;
pub use name::Name;

verus! {

/// The name of the hidden directory where uncommitted file versions live.
pub const VERSIONS: &'static str = ".txfs";

} // verus!
