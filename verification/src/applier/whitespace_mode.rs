//! How strictly lines are compared when locating a hunk.

use vstd::prelude::*;

verus! {

/// Text-comparison mode used when matching patch context and deletions
/// against file lines.
#[derive(Debug, Clone, Copy, PartialEq, Eq, Structural)]
pub enum WhitespaceMode {
    /// Lines must be equal character for character.
    Strict,
    /// Lines are compared after whitespace folding: split on Unicode white
    /// space, drop empty fragments, rejoin with single spaces.
    Lenient,
    /// Whitespace folding followed by punctuation folding: Unicode dashes,
    /// curly quotes and typographic spaces are mapped to ASCII equivalents
    /// before comparing.
    SuperLenient,
}

} // verus!
