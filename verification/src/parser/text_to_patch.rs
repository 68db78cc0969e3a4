//! Entry point for parsing patch text into structured actions.

use crate::data::chunk::{lemma_proj_push, proj_del, proj_ins, Chunk, ChunkView};
use crate::data::line_type::LineType;
use crate::data::patch_action::{ActionView, PatchAction};
use crate::error::ZenpatchError;
use crate::parser::parser::Parser;
use crate::text::{split_lines, split_lines_spec, str_eq, trim_str, trim_ws};
use vstd::prelude::*;

verus! {

/// Every hunk of every action satisfies the hunk invariant: its deletion and
/// insertion lists are the order-preserving projections of its line list.
pub open spec fn actions_wf(acts: Seq<ActionView>) -> bool {
    forall|i: int, j: int|
        0 <= i < acts.len() && 0 <= j < acts[i].chunks.len() ==> (#[trigger] acts[i].chunks[j]).wf()
}

/// Whether a patch's lines are properly framed: at least the two marker
/// lines, starting with `*** Begin Patch` and ending with `*** End Patch`.
pub open spec fn envelope_ok(ls: Seq<Seq<char>>) -> bool {
    &&& ls.len() >= 2
    &&& ls[0] == "*** Begin Patch"@
    &&& ls[ls.len() - 1] == "*** End Patch"@
}

/// A hunk with its deletion and insertion projections derived from its line
/// list: the hunk invariant holds of it by construction.
pub open spec fn normalise_chunk_spec(c: ChunkView) -> ChunkView {
    ChunkView {
        orig_index: c.orig_index,
        lines: c.lines,
        del_lines: proj_del(c.lines),
        ins_lines: proj_ins(c.lines),
    }
}

/// An action with every hunk's projections derived from its line list.
pub open spec fn normalise_action_spec(a: ActionView) -> ActionView {
    ActionView {
        type_: a.type_,
        path: a.path,
        new_path: a.new_path,
        chunks: a.chunks.map_values(|c: ChunkView| normalise_chunk_spec(c)),
    }
}

/// The actions a patch text parses to: the directive walk over the lines of
/// the trimmed text, each action's hunks completed with their projections.
pub open spec fn parse_actions_spec(text: Seq<char>) -> Seq<ActionView> {
    crate::parser::parser::parse_walk(split_lines_spec(trim_ws(text)), 1).map_values(
        |a: ActionView| normalise_action_spec(a),
    )
}

/// Whether a patch text parses at all: properly framed and holding at least
/// one file directive.
pub open spec fn text_parse_ok(text: Seq<char>) -> bool {
    &&& envelope_ok(split_lines_spec(trim_ws(text)))
    &&& crate::parser::parser::parse_walk(split_lines_spec(trim_ws(text)), 1).len() > 0
}

/// Rebuilds a hunk with its deletion and insertion projections derived from
/// its line list, establishing the hunk invariant.
fn normalise_chunk(c: &Chunk) -> (r: Chunk)
    ensures
        r@.orig_index == c@.orig_index,
        r@.lines == c@.lines,
        r@.wf(),
{
    let n = c.lines.len();
    proof {
        assert(c@.lines.len() == n);
    }
    let mut lines: Vec<(LineType, String)> = Vec::new();
    let mut del_lines: Vec<String> = Vec::new();
    let mut ins_lines: Vec<String> = Vec::new();
    let mut i: usize = 0;
    proof {
        reveal(Seq::filter);
        assert(crate::data::chunk::lines_view(lines@) =~= Seq::<(LineType, Seq<char>)>::empty());
        assert(proj_del(crate::data::chunk::lines_view(lines@)) =~= Seq::<Seq<char>>::empty());
        assert(proj_ins(crate::data::chunk::lines_view(lines@)) =~= Seq::<Seq<char>>::empty());
        assert(del_lines.deep_view() =~~= Seq::<Seq<char>>::empty());
        assert(ins_lines.deep_view() =~~= Seq::<Seq<char>>::empty());
        assert(c@.lines.take(0) =~= Seq::<(LineType, Seq<char>)>::empty());
    }
    while i < n
        invariant
            n == c.lines@.len(),
            c@.lines.len() == n,
            i <= n,
            crate::data::chunk::lines_view(lines@) == c@.lines.take(i as int),
            del_lines.deep_view() == proj_del(c@.lines.take(i as int)),
            ins_lines.deep_view() == proj_ins(c@.lines.take(i as int)),
        decreases n - i,
    {
        let entry = &c.lines[i];
        let ghost e = c@.lines[i as int];
        proof {
            assert(e == (c.lines@[i as int].0, c.lines@[i as int].1@));
            assert(c@.lines.take(i + 1) =~= c@.lines.take(i as int).push(e));
            lemma_proj_push(c@.lines.take(i as int), e);
        }
        let ghost prev_lines = crate::data::chunk::lines_view(lines@);
        let content = entry.1.clone();
        match entry.0 {
            LineType::Context => {
                lines.push((LineType::Context, content));
            },
            LineType::Deletion => {
                let ghost prev_del = del_lines.deep_view();
                lines.push((LineType::Deletion, content.clone()));
                del_lines.push(content);
                proof {
                    assert(del_lines.deep_view() =~~= prev_del.push(e.1));
                }
            },
            LineType::Insertion => {
                let ghost prev_ins = ins_lines.deep_view();
                lines.push((LineType::Insertion, content.clone()));
                ins_lines.push(content);
                proof {
                    assert(ins_lines.deep_view() =~~= prev_ins.push(e.1));
                }
            },
        }
        proof {
            assert(crate::data::chunk::lines_view(lines@) =~= prev_lines.push(e));
        }
        i += 1;
    }
    proof {
        assert(c@.lines.take(n as int) =~= c@.lines);
    }
    let r = Chunk { orig_index: c.orig_index, lines, del_lines, ins_lines };
    r
}

/// Parses patch text into a structured list of file actions.
///
/// The patch must be framed by `*** Begin Patch` and `*** End Patch` lines
/// and hold at least one file directive; anything else is an
/// `InvalidPatchFormat` error. Every hunk of a returned action satisfies the
/// hunk invariant.
pub fn text_to_patch(text: &str) -> (r: Result<Vec<PatchAction>, ZenpatchError>)
    ensures
        r is Ok <==> text_parse_ok(text@),
        r is Ok ==> r->Ok_0.deep_view() == parse_actions_spec(text@),
        r is Err ==> r->Err_0 is InvalidPatchFormat,
        r is Ok ==> r->Ok_0@.len() >= 1,
        r is Ok ==> actions_wf(r->Ok_0.deep_view()),
        r is Ok ==> forall|i: int|
            0 <= i < r->Ok_0@.len() ==> crate::parser::parser::action_shape_ok(
                #[trigger] r->Ok_0.deep_view()[i],
            ),
{
    let trimmed_text = trim_str(text);
    let lines = split_lines(trimmed_text);
    proof {
        crate::text::lemma_trim_ws_idempotent(text@);
        assert(trim_ws(trimmed_text@) == trimmed_text@);
        assert(lines.deep_view().len() == lines@.len());
    }

    if lines.len() < 2 {
        return Err(
            ZenpatchError::InvalidPatchFormat(
                String::from_str("Patch text is too short (must include start and end markers)."),
            ),
        );
    }
    proof {
        assert(lines.deep_view()[0] == lines@[0]@);
        assert(lines.deep_view()[lines@.len() - 1] == lines@[lines@.len() - 1]@);
    }
    if !str_eq(lines[0].as_str(), "*** Begin Patch") {
        return Err(
            ZenpatchError::InvalidPatchFormat(
                String::from_str("Patch must start with '*** Begin Patch'"),
            ),
        );
    }
    if !str_eq(lines[lines.len() - 1].as_str(), "*** End Patch") {
        return Err(
            ZenpatchError::InvalidPatchFormat(
                String::from_str("Patch must end with '*** End Patch'"),
            ),
        );
    }

    let mut parser = Parser::new(trimmed_text);
    proof {
        if trim_ws(trimmed_text@).len() == 0 {
            assert(split_lines_spec(trimmed_text@) =~= Seq::<Seq<char>>::empty());
            assert(false);
        }
        assert(parser.lines.deep_view().len() == parser.lines@.len());
        assert(parser.lines@.len() == lines@.len());
        assert(parser.lines.deep_view() == split_lines_spec(trim_ws(text@)));
    }
    let actions = match parser.parse() {
        Ok(a) => a,
        Err(e) => {
            return Err(e);
        },
    };

    let ghost acts = actions.deep_view();
    let na = actions.len();
    let mut out: Vec<PatchAction> = Vec::new();
    let mut ai: usize = 0;
    while ai < na
        invariant
            na == actions@.len() >= 1,
            acts == actions.deep_view(),
            ai <= na,
            out@.len() == ai,
            forall|i: int|
                0 <= i < actions@.len() ==> crate::parser::parser::action_shape_ok(
                    #[trigger] actions.deep_view()[i],
                ),
            forall|i: int, j: int|
                0 <= i < out@.len() && 0 <= j < out.deep_view()[i].chunks.len() ==> (
                #[trigger] out.deep_view()[i].chunks[j]).wf(),
            forall|i: int|
                0 <= i < out@.len() ==> crate::parser::parser::action_shape_ok(
                    #[trigger] out.deep_view()[i],
                ),
            forall|i: int|
                0 <= i < out@.len() ==> #[trigger] out.deep_view()[i] == normalise_action_spec(
                    acts[i],
                ),
        decreases na - ai,
    {
        let a = &actions[ai];
        let ghost av = actions.deep_view()[ai as int];
        proof {
            assert(av == actions@[ai as int]@);
        }
        let nc = a.chunks.len();
        let mut new_chunks: Vec<Chunk> = Vec::new();
        let mut cj: usize = 0;
        while cj < nc
            invariant
                nc == a.chunks@.len(),
                av.chunks.len() == nc,
                av.chunks == a.chunks.deep_view(),
                cj <= nc,
                new_chunks@.len() == cj,
                forall|j: int|
                    0 <= j < new_chunks@.len() ==> (#[trigger] new_chunks.deep_view()[j]).wf(),
                forall|j: int|
                    0 <= j < new_chunks@.len() ==> (#[trigger] new_chunks.deep_view()[j]).lines
                        == av.chunks[j].lines && new_chunks.deep_view()[j].orig_index
                        == av.chunks[j].orig_index,
                forall|j: int|
                    0 <= j < new_chunks@.len() ==> #[trigger] new_chunks.deep_view()[j]
                        == normalise_chunk_spec(av.chunks[j]),
            decreases nc - cj,
        {
            let ghost prev = new_chunks.deep_view();
            let rc = normalise_chunk(&a.chunks[cj]);
            proof {
                assert(a.chunks@[cj as int]@ == av.chunks[cj as int]);
            }
            new_chunks.push(rc);
            proof {
                assert(rc@ =~~= normalise_chunk_spec(av.chunks[cj as int]));
                assert forall|j: int| 0 <= j < new_chunks@.len() implies (
                #[trigger] new_chunks.deep_view()[j]).wf() && new_chunks.deep_view()[j].lines
                    == av.chunks[j].lines && new_chunks.deep_view()[j].orig_index
                    == av.chunks[j].orig_index && new_chunks.deep_view()[j]
                    == normalise_chunk_spec(av.chunks[j]) by {
                    if j < prev.len() {
                        assert(new_chunks.deep_view()[j] == prev[j]);
                    } else {
                        assert(new_chunks.deep_view()[j] == rc@);
                    }
                }
            }
            cj += 1;
        }
        let rebuilt = PatchAction {
            type_: a.type_,
            path: a.path.clone(),
            new_path: match &a.new_path {
                Option::Some(p) => Option::Some(p.clone()),
                Option::None => Option::None,
            },
            chunks: new_chunks,
        };
        let ghost rv = rebuilt@;
        proof {
            assert(rv.type_ == av.type_);
            assert(rv.new_path == av.new_path);
            assert(crate::parser::parser::action_shape_ok(av));
            assert(crate::parser::parser::action_shape_ok(rv)) by {
                match rv.type_ {
                    crate::data::action_type::ActionType::Add => {
                        assert(rv.chunks[0].lines == av.chunks[0].lines);
                    },
                    crate::data::action_type::ActionType::Delete => {
                        assert forall|j: int, k: int|
                            0 <= j < rv.chunks.len() && 0 <= k < rv.chunks[j].lines.len() implies (
                        #[trigger] rv.chunks[j].lines[k]).0 is Deletion by {
                            assert(rv.chunks[j].lines == av.chunks[j].lines);
                            assert(av.chunks[j].lines[k].0 is Deletion);
                        }
                    },
                    crate::data::action_type::ActionType::Update => {
                        assert forall|j: int| 0 <= j < rv.chunks.len() implies (
                        #[trigger] rv.chunks[j]).orig_index == 0 && rv.chunks[j].lines.len()
                            > 0 by {
                            assert(rv.chunks[j].lines == av.chunks[j].lines);
                            assert(rv.chunks[j].orig_index == av.chunks[j].orig_index);
                        }
                    },
                }
            }
        }
        let ghost prev_out = out.deep_view();
        proof {
            assert(rv =~~= normalise_action_spec(av));
        }
        out.push(rebuilt);
        proof {
            assert forall|i: int|
                0 <= i < out@.len() implies #[trigger] out.deep_view()[i] == normalise_action_spec(
                acts[i],
            ) by {
                if i < prev_out.len() {
                    assert(out.deep_view()[i] == prev_out[i]);
                } else {
                    assert(out.deep_view()[i] == rv);
                }
            }
            assert forall|i: int, j: int|
                0 <= i < out@.len() && 0 <= j < out.deep_view()[i].chunks.len() implies (
            #[trigger] out.deep_view()[i].chunks[j]).wf() by {
                if i < prev_out.len() {
                    assert(out.deep_view()[i] == prev_out[i]);
                } else {
                    assert(out.deep_view()[i] == rv);
                }
            }
            assert forall|i: int| 0 <= i < out@.len() implies crate::parser::parser::action_shape_ok(
                #[trigger] out.deep_view()[i],
            ) by {
                if i < prev_out.len() {
                    assert(out.deep_view()[i] == prev_out[i]);
                } else {
                    assert(out.deep_view()[i] == rv);
                }
            }
        }
        ai += 1;
    }
    proof {
        assert(actions_wf(out.deep_view()));
        assert(acts == crate::parser::parser::parse_walk(split_lines_spec(trim_ws(text@)), 1));
        assert(out.deep_view() =~~= parse_actions_spec(text@));
    }
    Ok(out)
}

} // verus!
