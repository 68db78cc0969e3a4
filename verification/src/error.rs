//! Errors raised while parsing or applying a patch.

use vstd::prelude::*;

verus! {

/// Everything that can go wrong while parsing a patch or applying it to a
/// set of files.
#[derive(Debug)]
pub enum ZenpatchError {
    /// The patch text is not in the expected envelope format.
    InvalidPatchFormat(String),
    /// An update or delete names a path that is not present.
    FileNotFound(String),
    /// A path occurs more than once in a patch.
    DuplicatePath(String),
    /// A file mentioned by the patch is missing.
    MissingFile(String),
    /// An add names a path that already exists.
    FileExists(String),
    /// A line of the patch cannot be classified.
    InvalidLine(String),
    /// Context at the given index does not match the file.
    InvalidContext(usize, String),
    /// End-of-file context at the given index does not match the file.
    InvalidEOFContext(usize, String),
    /// An index fell outside the file.
    IndexOutOfBounds(String),
    /// An input or output failure reported by the caller.
    IoError(String),
    /// No placement of the hunks satisfies deletion match and non-overlap.
    PatchConflict(String),
    /// Context lines were not found in the file.
    ContextNotFound(String),
    /// Two or more placements produce materially distinct outputs, or the
    /// search budget was exhausted.
    AmbiguousPatch(String),
    /// A wrapped error from an outer layer.
    AnyhowError(String),
    /// The application failed for a reason outside the other kinds.
    PatchApplicationFailed(String),
}

} // verus!
