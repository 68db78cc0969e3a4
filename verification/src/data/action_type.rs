//! The kind of file operation a patch action performs.

use vstd::prelude::*;

verus! {

/// Whether a patch action adds, deletes or updates a file.
#[derive(Debug, Clone, Copy, PartialEq, Eq, Structural)]
pub enum ActionType {
    Add,
    Delete,
    Update,
}

} // verus!
