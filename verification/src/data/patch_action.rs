//! A single file operation derived from a patch.

use crate::data::action_type::ActionType;
use crate::data::chunk::{Chunk, ChunkView};
use vstd::prelude::*;

verus! {

/// Mathematical image of a [`PatchAction`].
#[verifier::ext_equal]
pub ghost struct ActionView {
    pub type_: ActionType,
    pub path: Seq<char>,
    pub new_path: Option<Seq<char>>,
    pub chunks: Seq<ChunkView>,
}

/// The view of an optional path.
pub open spec fn opt_path_view(o: Option<String>) -> Option<Seq<char>> {
    match o {
        Option::Some(s) => Option::Some(s@),
        Option::None => Option::None,
    }
}

/// One file operation described by a patch: add, delete or update a path,
/// with the hunks to apply and an optional rename destination.
#[derive(Debug, Clone)]
pub struct PatchAction {
    /// The kind of operation.
    pub type_: ActionType,
    /// The path the operation applies to.
    pub path: String,
    /// Destination path of a rename; only meaningful for updates.
    pub new_path: Option<String>,
    /// The hunks to apply, for updates; the content, for adds and deletes.
    pub chunks: Vec<Chunk>,
}

impl View for PatchAction {
    type V = ActionView;

    open spec fn view(&self) -> ActionView {
        ActionView {
            type_: self.type_,
            path: self.path@,
            new_path: opt_path_view(self.new_path),
            chunks: self.chunks.deep_view(),
        }
    }
}

impl DeepView for PatchAction {
    type V = ActionView;

    open spec fn deep_view(&self) -> ActionView {
        self.view()
    }
}

impl PatchAction {
    /// An action of the given kind on the given path, with no hunks and no
    /// rename.
    pub fn new(action_type: ActionType, path: String) -> (r: Self)
        ensures
            r@.type_ == action_type,
            r@.path == path@,
            r@.new_path is None,
            r@.chunks == Seq::<ChunkView>::empty(),
    {
        let r = PatchAction { type_: action_type, path, new_path: Option::None, chunks: Vec::new() };
        proof {
            assert(r@.chunks =~= Seq::<ChunkView>::empty());
        }
        r
    }
}

/// Compares two hunk vectors for character-wise equality.
pub fn chunks_eq(a: &Vec<Chunk>, b: &Vec<Chunk>) -> (r: bool)
    ensures
        r == (a.deep_view() == b.deep_view()),
{
    if a.len() != b.len() {
        proof {
            assert(a.deep_view().len() == a@.len());
            assert(b.deep_view().len() == b@.len());
        }
        return false;
    }
    let n = a.len();
    let mut i: usize = 0;
    while i < n
        invariant
            n == a.len() == b.len(),
            i <= n,
            forall|k: int| 0 <= k < i ==> a.deep_view()[k] == b.deep_view()[k],
        decreases n - i,
    {
        proof {
            assert(a.deep_view()[i as int] == a@[i as int]@);
            assert(b.deep_view()[i as int] == b@[i as int]@);
        }
        if !(&a[i] == &b[i]) {
            return false;
        }
        i += 1;
    }
    proof {
        assert(a.deep_view() =~= b.deep_view());
    }
    true
}

impl PartialEq for PatchAction {
    /// Two actions are equal when kind, paths and hunks agree character for
    /// character.
    fn eq(&self, other: &Self) -> (r: bool) {
        let kind_eq = match (self.type_, other.type_) {
            (ActionType::Add, ActionType::Add) => true,
            (ActionType::Delete, ActionType::Delete) => true,
            (ActionType::Update, ActionType::Update) => true,
            _ => false,
        };
        let new_path_eq = match (&self.new_path, &other.new_path) {
            (Option::Some(p), Option::Some(q)) => crate::text::str_eq(p.as_str(), q.as_str()),
            (Option::None, Option::None) => true,
            _ => false,
        };
        let r = kind_eq && self.path == other.path && new_path_eq && chunks_eq(
            &self.chunks,
            &other.chunks,
        );
        proof {
            if r {
                assert(self@ =~= other@);
            }
        }
        r
    }
}

impl vstd::std_specs::cmp::PartialEqSpecImpl for PatchAction {
    open spec fn obeys_eq_spec() -> bool {
        true
    }

    open spec fn eq_spec(&self, other: &Self) -> bool {
        self@ == other@
    }
}

} // verus!
