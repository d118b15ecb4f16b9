//! The error model.
//!
//! Every fallible operation surfaces a typed failure value to its caller;
//! nothing panics on a data-validity problem and nothing retries.

use vstd::prelude::*;

verus! {

/// The field of a stored version tree that was missing or malformed.
#[derive(Clone, Copy, Debug, PartialEq, Eq, Structural)]
pub enum FormatField {
    /// The tracked-file path cell at the top level.
    FileName,
    /// The current-version identifier cell at the top level.
    CurrentId,
    /// The next-free identifier cell at the top level.
    NextId,
    /// The cell holding the list of versions.
    VersionList,
    /// A version's identifier cell.
    VersionId,
    /// A version's parent identifier cell.
    BaseId,
    /// A version's metadata cell.
    Meta,
    /// The name cell inside a version's metadata.
    Name,
    /// The creation-date cell inside a version's metadata.
    Date,
    /// The cell holding a version's deletions.
    Deletions,
    /// A deletion's start cell.
    DeletionStart,
    /// A deletion's end cell.
    DeletionEnd,
    /// The cell holding a version's insertions.
    Insertions,
    /// An insertion's start cell.
    InsertionStart,
    /// An insertion's payload cell.
    InsertionData,
    /// The records parse but do not form a rooted tree: the first record must
    /// be its own parent with an empty script, every other record must refer
    /// to an earlier parent, identifiers must be unique and below the
    /// next-free identifier, and every script must be sorted.
    TreeShape,
}

/// Any error that can occur while using this library.
#[derive(Clone, Copy, Debug, PartialEq, Eq, Structural)]
pub enum SbvcError {
    /// A field of the stored version tree is missing or malformed.
    InvalidFormat(FormatField),
    /// An integer field of the stored version tree could not be parsed.
    Parse(FormatField),
    /// No version carries the requested identifier.
    VersionNotFound(u32),
}

/// The result type for this crate.
pub type SbvcResult<T> = Result<T, SbvcError>;

} // verus!
