//! A content-addressable object model for filesystem snapshots.
//!
//! Files and directories are given a canonical, deterministic binary
//! encoding; each object is identified by the digest of its encoded form.
//! Identical content always produces identical identifiers, and a
//! directory's identifier is a pure function of its entries' names, modes
//! and child identifiers.

mod blob;
mod digest;
mod enc;
mod fs;
mod mode;
mod oid;
mod order;
mod tree;

pub use blob::Blob;
pub use fs::{FsEntry, FsNode};
pub use mode::Mode;
pub use oid::{HexErrorKind, OIDError, OID};
pub use tree::{Tree, TreeEntry, TreeError, TreeItem};
