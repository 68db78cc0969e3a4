//! State carried through the backtracking search.

use std::collections::HashSet;
use vstd::prelude::*;

verus! {

/// State of the backtracking search for a unique application of all hunks.
#[derive(Debug)]
pub struct BacktrackingState {
    /// Indices of the hunks placed on the current path.
    pub applied_chunks: HashSet<usize>,
    /// Original-line indices consumed by the deletion footprints of the
    /// placed hunks.
    pub modified_indices: HashSet<usize>,
    /// How many materially distinct complete outcomes have been found,
    /// saturating at two.
    pub solution_count: usize,
    /// The first complete output line sequence found.
    pub first_solution_result: Option<Vec<String>>,
    /// The placement list that produced the first solution.
    pub solution_path: Option<Vec<(usize, usize)>>,
}

impl BacktrackingState {
    /// A fresh state: nothing applied, nothing claimed, no solution yet.
    pub fn new() -> (r: Self)
        ensures
            r.applied_chunks@ == Set::<usize>::empty(),
            r.modified_indices@ == Set::<usize>::empty(),
            r.solution_count == 0,
            r.first_solution_result is None,
            r.solution_path is None,
    {
        BacktrackingState {
            applied_chunks: HashSet::new(),
            modified_indices: HashSet::new(),
            solution_count: 0,
            first_solution_result: Option::None,
            solution_path: Option::None,
        }
    }
}

} // verus!
