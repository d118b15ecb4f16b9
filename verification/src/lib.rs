//! Version-control engine for a single tracked file.
//!
//! The history of the tracked file is kept as a tree of versions.  Every
//! non-root version stores a byte-level edit script (deletions and
//! insertions) against its parent, and the content of any version is
//! reconstructed on demand by composing the scripts from the root down.
//!
//! The crate is organised leaf-first:
//!
//! * [`edit`] — the edit-script data model and the patch applier;
//! * [`diff`] — the chunked diff engine that computes an edit script;
//! * [`version`] — one snapshot node of the tree;
//! * [`tree`] — the version tree and its mutation protocol;
//! * [`codec`] — the flat on-disk encoding of a whole tree;
//! * [`error`] — the error model.
//!
//! All file and clock access is left to the caller: the engine works on
//! byte buffers and plain timestamps.

pub mod codec;
pub mod diff;
pub mod edit;
pub mod error;
pub mod tree;
pub mod version;

pub use edit::Deletion;
pub use edit::Difference;
pub use edit::Insertion;
pub use error::FormatField;
pub use error::SbvcError;
pub use error::SbvcResult;
pub use tree::Sbvc;
pub use version::Version;
