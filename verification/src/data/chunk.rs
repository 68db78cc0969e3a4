//! A hunk: one contiguous block of context, deletion and insertion lines.

use crate::data::line_type::LineType;
use vstd::prelude::*;

verus! {

/// Mathematical image of a [`Chunk`]: the positional hint and the three line
/// sequences, each line a sequence of characters.
#[verifier::ext_equal]
pub ghost struct ChunkView {
    pub orig_index: int,
    pub lines: Seq<(LineType, Seq<char>)>,
    pub del_lines: Seq<Seq<char>>,
    pub ins_lines: Seq<Seq<char>>,
}

/// The view of a hunk's full line list: each entry keeps its role and turns
/// its content into a character sequence.
pub open spec fn lines_view(ls: Seq<(LineType, String)>) -> Seq<(LineType, Seq<char>)> {
    ls.map_values(|p: (LineType, String)| (p.0, p.1@))
}

/// The ordered contents of the `Deletion` entries of a line list.
pub open spec fn proj_del(ls: Seq<(LineType, Seq<char>)>) -> Seq<Seq<char>> {
    ls.filter(|p: (LineType, Seq<char>)| p.0 is Deletion).map_values(
        |p: (LineType, Seq<char>)| p.1,
    )
}

/// The ordered contents of the `Insertion` entries of a line list.
pub open spec fn proj_ins(ls: Seq<(LineType, Seq<char>)>) -> Seq<Seq<char>> {
    ls.filter(|p: (LineType, Seq<char>)| p.0 is Insertion).map_values(
        |p: (LineType, Seq<char>)| p.1,
    )
}

impl ChunkView {
    /// A hunk is well formed when its deletion and insertion lists are the
    /// order-preserving projections of its full line list.
    pub open spec fn wf(self) -> bool {
        &&& self.del_lines == proj_del(self.lines)
        &&& self.ins_lines == proj_ins(self.lines)
    }

    /// Length of the leading contiguous run of `Context` lines: the
    /// pre-context anchor.
    pub open spec fn pre_len(self) -> nat {
        pre_ctx_len(self.lines)
    }
}

/// Length of the leading contiguous run of `Context` entries of a line list.
pub open spec fn pre_ctx_len(ls: Seq<(LineType, Seq<char>)>) -> nat
    decreases ls.len(),
{
    if ls.len() == 0 || !(ls[0].0 is Context) {
        0
    } else {
        1 + pre_ctx_len(ls.skip(1))
    }
}

/// How the deletion and insertion projections grow when one line is added
/// to a line list.
pub proof fn lemma_proj_push(ls: Seq<(LineType, Seq<char>)>, e: (LineType, Seq<char>))
    ensures
        proj_del(ls.push(e)) == if e.0 is Deletion {
            proj_del(ls).push(e.1)
        } else {
            proj_del(ls)
        },
        proj_ins(ls.push(e)) == if e.0 is Insertion {
            proj_ins(ls).push(e.1)
        } else {
            proj_ins(ls)
        },
{
    reveal(Seq::filter);
    assert(ls.push(e).drop_last() =~= ls);
    let pd = |p: (LineType, Seq<char>)| p.0 is Deletion;
    let pi = |p: (LineType, Seq<char>)| p.0 is Insertion;
    let mv = |p: (LineType, Seq<char>)| p.1;
    if e.0 is Deletion {
        assert(ls.push(e).filter(pd) == ls.filter(pd).push(e));
        assert(ls.push(e).filter(pd).map_values(mv) =~= ls.filter(pd).map_values(mv).push(e.1));
    } else {
        assert(ls.push(e).filter(pd) == ls.filter(pd));
    }
    if e.0 is Insertion {
        assert(ls.push(e).filter(pi) == ls.filter(pi).push(e));
        assert(ls.push(e).filter(pi).map_values(mv) =~= ls.filter(pi).map_values(mv).push(e.1));
    } else {
        assert(ls.push(e).filter(pi) == ls.filter(pi));
    }
}

/// One contiguous block of changes within a file update: an ordered list of
/// `(role, content)` lines, together with the derived deletion and insertion
/// projections and a positional hint from the parser.
#[derive(Debug, Clone)]
pub struct Chunk {
    /// Approximate position of the hunk in the original file; a parser hint,
    /// used only to break ties, never as a source of truth.
    pub orig_index: usize,
    /// The full ordered line list with each line's role.
    pub lines: Vec<(LineType, String)>,
    /// The ordered contents of the `Deletion` lines.
    pub del_lines: Vec<String>,
    /// The ordered contents of the `Insertion` lines.
    pub ins_lines: Vec<String>,
}

impl View for Chunk {
    type V = ChunkView;

    open spec fn view(&self) -> ChunkView {
        ChunkView {
            orig_index: self.orig_index as int,
            lines: lines_view(self.lines@),
            del_lines: self.del_lines.deep_view(),
            ins_lines: self.ins_lines.deep_view(),
        }
    }
}

impl DeepView for Chunk {
    type V = ChunkView;

    open spec fn deep_view(&self) -> ChunkView {
        self.view()
    }
}

impl Chunk {
    /// An empty hunk with hint zero.
    pub fn new() -> (r: Self)
        ensures
            r@.orig_index == 0,
            r@.lines == Seq::<(LineType, Seq<char>)>::empty(),
            r@.del_lines == Seq::<Seq<char>>::empty(),
            r@.ins_lines == Seq::<Seq<char>>::empty(),
            r@.wf(),
    {
        let r = Chunk {
            orig_index: 0,
            lines: Vec::new(),
            del_lines: Vec::new(),
            ins_lines: Vec::new(),
        };
        proof {
            assert(r@.lines =~= Seq::<(LineType, Seq<char>)>::empty());
            assert(r@.del_lines =~= Seq::<Seq<char>>::empty());
            assert(r@.ins_lines =~= Seq::<Seq<char>>::empty());
            reveal(Seq::filter);
            assert(proj_del(r@.lines) =~= Seq::<Seq<char>>::empty());
            assert(proj_ins(r@.lines) =~= Seq::<Seq<char>>::empty());
        }
        r
    }
}

/// Compares two role-and-content line lists for character-wise equality.
pub fn typed_lines_eq(a: &Vec<(LineType, String)>, b: &Vec<(LineType, String)>) -> (r: bool)
    ensures
        r == (lines_view(a@) == lines_view(b@)),
{
    if a.len() != b.len() {
        proof {
            assert(lines_view(a@).len() == a@.len());
            assert(lines_view(b@).len() == b@.len());
        }
        return false;
    }
    let n = a.len();
    let mut i: usize = 0;
    while i < n
        invariant
            n == a.len() == b.len(),
            i <= n,
            forall|k: int| 0 <= k < i ==> lines_view(a@)[k] == lines_view(b@)[k],
        decreases n - i,
    {
        let pa = &a[i];
        let pb = &b[i];
        let role_eq = match (pa.0, pb.0) {
            (LineType::Context, LineType::Context) => true,
            (LineType::Deletion, LineType::Deletion) => true,
            (LineType::Insertion, LineType::Insertion) => true,
            _ => false,
        };
        if !role_eq || !(pa.1 == pb.1) {
            proof {
                assert(lines_view(a@)[i as int] == (a@[i as int].0, a@[i as int].1@));
                assert(lines_view(b@)[i as int] == (b@[i as int].0, b@[i as int].1@));
            }
            return false;
        }
        proof {
            assert(lines_view(a@)[i as int] == (a@[i as int].0, a@[i as int].1@));
            assert(lines_view(b@)[i as int] == (b@[i as int].0, b@[i as int].1@));
        }
        i += 1;
    }
    proof {
        assert(lines_view(a@) =~= lines_view(b@));
    }
    true
}

impl PartialEq for Chunk {
    /// Two hunks are equal when their hints agree and all three line lists
    /// agree character for character.
    fn eq(&self, other: &Self) -> (r: bool) {
        let r = self.orig_index == other.orig_index && typed_lines_eq(&self.lines, &other.lines)
            && crate::text::string_vec_eq(&self.del_lines, &other.del_lines)
            && crate::text::string_vec_eq(&self.ins_lines, &other.ins_lines);
        proof {
            if r {
                assert(self@ =~= other@);
            }
        }
        r
    }
}

impl vstd::std_specs::cmp::PartialEqSpecImpl for Chunk {
    open spec fn obeys_eq_spec() -> bool {
        true
    }

    open spec fn eq_spec(&self, other: &Self) -> bool {
        self@ == other@
    }
}

} // verus!
