//! The role of a line within a patch hunk.

use vstd::prelude::*;

verus! {

/// Role of a line within a hunk: unchanged context, a deletion from the
/// original, or an insertion into the result.
#[derive(Debug, Clone, Copy, PartialEq, Eq, Structural)]
pub enum LineType {
    /// Present in both the pre- and the post-image.
    Context,
    /// Present in the pre-image only.
    Deletion,
    /// Present in the post-image only.
    Insertion,
}

} // verus!
