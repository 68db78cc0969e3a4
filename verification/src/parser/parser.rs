//! Line-by-line parser for the patch envelope's file directives.

use crate::data::action_type::ActionType;
use crate::data::chunk::Chunk;
use crate::data::line_type::LineType;
use crate::data::patch_action::PatchAction;
use crate::error::ZenpatchError;
use crate::text::{split_lines, split_lines_spec, str_starts_with, strip_prefix_repeat, trim_str,
    trim_ws};
use vstd::prelude::*;

verus! {

/// The first index at or after `i` whose line opens a new patch section
/// (starts with `*** `), or the number of lines when none does: where an add
/// or delete directive's body ends.
pub open spec fn scan_end(lines: Seq<Seq<char>>, i: int) -> int
    decreases lines.len() - i,
{
    if i < 0 || i >= lines.len() {
        i
    } else if "*** "@.is_prefix_of(lines[i]) {
        i
    } else {
        scan_end(lines, i + 1)
    }
}

pub proof fn lemma_scan_end_bounds(lines: Seq<Seq<char>>, i: int)
    requires
        0 <= i <= lines.len(),
    ensures
        i <= scan_end(lines, i) <= lines.len(),
    decreases lines.len() - i,
{
    if i < lines.len() && !"*** "@.is_prefix_of(lines[i]) {
        lemma_scan_end_bounds(lines, i + 1);
    }
}

pub proof fn lemma_scan_end_at(lines: Seq<Seq<char>>, i: int, j: int)
    requires
        0 <= i <= j <= lines.len(),
        forall|k: int| i <= k < j ==> !"*** "@.is_prefix_of(#[trigger] lines[k]),
        j < lines.len() ==> "*** "@.is_prefix_of(lines[j]),
    ensures
        scan_end(lines, i) == j,
    decreases j - i,
{
    if i < j {
        assert(!"*** "@.is_prefix_of(lines[i]));
        lemma_scan_end_at(lines, i + 1, j);
    }
}

proof fn lemma_plus_lines_push(ls: Seq<Seq<char>>, x: Seq<char>)
    ensures
        plus_lines(ls.push(x)) == if "+"@.is_prefix_of(x) {
            plus_lines(ls).push((LineType::Insertion, x.skip(1)))
        } else {
            plus_lines(ls)
        },
{
    reveal(Seq::filter);
    assert(ls.push(x).drop_last() =~= ls);
    let pred = |l: Seq<char>| "+"@.is_prefix_of(l);
    let f = |l: Seq<char>| (LineType::Insertion, l.skip(1));
    if pred(x) {
        assert(ls.push(x).filter(pred) == ls.filter(pred).push(x));
        assert(ls.filter(pred).push(x).map_values(f) =~= ls.filter(pred).map_values(f).push(f(x)));
    }
}

proof fn lemma_minus_lines_push(ls: Seq<Seq<char>>, x: Seq<char>)
    ensures
        minus_lines(ls.push(x)) == if "-"@.is_prefix_of(x) {
            minus_lines(ls).push((LineType::Deletion, x.skip(1)))
        } else {
            minus_lines(ls)
        },
{
    reveal(Seq::filter);
    assert(ls.push(x).drop_last() =~= ls);
    let pred = |l: Seq<char>| "-"@.is_prefix_of(l);
    let f = |l: Seq<char>| (LineType::Deletion, l.skip(1));
    if pred(x) {
        assert(ls.push(x).filter(pred) == ls.filter(pred).push(x));
        assert(ls.filter(pred).push(x).map_values(f) =~= ls.filter(pred).map_values(f).push(f(x)));
    }
}

/// The `+`-prefixed lines of a directive body, each as an insertion entry
/// with its marker removed.
pub open spec fn plus_lines(ls: Seq<Seq<char>>) -> Seq<(LineType, Seq<char>)> {
    ls.filter(|l: Seq<char>| "+"@.is_prefix_of(l)).map_values(
        |l: Seq<char>| (LineType::Insertion, l.skip(1)),
    )
}

/// The `-`-prefixed lines of a directive body, each as a deletion entry with
/// its marker removed.
pub open spec fn minus_lines(ls: Seq<Seq<char>>) -> Seq<(LineType, Seq<char>)> {
    ls.filter(|l: Seq<char>| "-"@.is_prefix_of(l)).map_values(
        |l: Seq<char>| (LineType::Deletion, l.skip(1)),
    )
}

/// The action an add directive at line `i` parses to.
pub open spec fn add_action_spec(
    lines: Seq<Seq<char>>,
    i: int,
) -> crate::data::patch_action::ActionView {
    let body = plus_lines(lines.subrange(i + 1, scan_end(lines, i + 1)));
    crate::data::patch_action::ActionView {
        type_: crate::data::action_type::ActionType::Add,
        path: crate::text::trim_ws(crate::text::strip_prefix_rec(lines[i], "*** Add File: "@)),
        new_path: Option::None,
        chunks: seq![
            crate::data::chunk::ChunkView {
                orig_index: 0,
                lines: body,
                del_lines: Seq::empty(),
                ins_lines: crate::data::chunk::proj_ins(body),
            },
        ],
    }
}

/// The action a delete directive at line `i` parses to: no hunk at all when
/// the body holds no deletion lines.
pub open spec fn delete_action_spec(
    lines: Seq<Seq<char>>,
    i: int,
) -> crate::data::patch_action::ActionView {
    let body = minus_lines(lines.subrange(i + 1, scan_end(lines, i + 1)));
    crate::data::patch_action::ActionView {
        type_: crate::data::action_type::ActionType::Delete,
        path: crate::text::trim_ws(crate::text::strip_prefix_rec(lines[i], "*** Delete File: "@)),
        new_path: Option::None,
        chunks: if body.len() == 0 {
            Seq::empty()
        } else {
            seq![
                crate::data::chunk::ChunkView {
                    orig_index: 0,
                    lines: body,
                    del_lines: Seq::empty(),
                    ins_lines: Seq::empty(),
                },
            ]
        },
    }
}

/// Whether a line ends an update directive's body: the end marker or the
/// next file directive.
pub open spec fn upd_stop(l: Seq<char>) -> bool {
    ||| "*** End Patch"@.is_prefix_of(l)
    ||| "*** Add File:"@.is_prefix_of(l)
    ||| "*** Update File:"@.is_prefix_of(l)
    ||| "*** Delete File:"@.is_prefix_of(l)
}

/// The hunk list extended by the hunk under construction, when it is
/// non-empty.
pub open spec fn flush_chunk(
    chunks: Seq<crate::data::chunk::ChunkView>,
    cur: Seq<(LineType, Seq<char>)>,
) -> Seq<crate::data::chunk::ChunkView> {
    if cur.len() > 0 {
        chunks.push(
            crate::data::chunk::ChunkView {
                orig_index: 0,
                lines: cur,
                del_lines: Seq::empty(),
                ins_lines: Seq::empty(),
            },
        )
    } else {
        chunks
    }
}

/// One walk over an update directive's body from line `j`: grows the hunk
/// under construction line by line, starts a new hunk at each `@@`, records
/// the last rename destination, and stops at the end of the body. Yields the
/// collected hunks, the rename destination, and the line after the body.
pub open spec fn upd_scan(
    lines: Seq<Seq<char>>,
    j: int,
    cur: Seq<(LineType, Seq<char>)>,
    chunks: Seq<crate::data::chunk::ChunkView>,
    np: Option<Seq<char>>,
) -> (Seq<crate::data::chunk::ChunkView>, Option<Seq<char>>, int)
    decreases lines.len() - j,
{
    if j < 0 || j >= lines.len() || upd_stop(lines[j]) {
        (flush_chunk(chunks, cur), np, j)
    } else if "*** Move to: "@.is_prefix_of(lines[j]) {
        upd_scan(
            lines,
            j + 1,
            cur,
            chunks,
            Option::Some(
                crate::text::trim_ws(crate::text::strip_prefix_rec(lines[j], "*** Move to: "@)),
            ),
        )
    } else if "@@"@.is_prefix_of(lines[j]) {
        upd_scan(lines, j + 1, Seq::empty(), flush_chunk(chunks, cur), np)
    } else if " "@.is_prefix_of(lines[j]) {
        upd_scan(lines, j + 1, cur.push((LineType::Context, lines[j].skip(1))), chunks, np)
    } else if "+"@.is_prefix_of(lines[j]) {
        upd_scan(lines, j + 1, cur.push((LineType::Insertion, lines[j].skip(1))), chunks, np)
    } else if "-"@.is_prefix_of(lines[j]) {
        upd_scan(lines, j + 1, cur.push((LineType::Deletion, lines[j].skip(1))), chunks, np)
    } else {
        upd_scan(lines, j + 1, cur, chunks, np)
    }
}

pub proof fn lemma_upd_scan_bounds(
    lines: Seq<Seq<char>>,
    j: int,
    cur: Seq<(LineType, Seq<char>)>,
    chunks: Seq<crate::data::chunk::ChunkView>,
    np: Option<Seq<char>>,
)
    requires
        0 <= j <= lines.len(),
    ensures
        j <= upd_scan(lines, j, cur, chunks, np).2 <= lines.len(),
    decreases lines.len() - j,
{
    if j < lines.len() && !upd_stop(lines[j]) {
        if "*** Move to: "@.is_prefix_of(lines[j]) {
            lemma_upd_scan_bounds(
                lines,
                j + 1,
                cur,
                chunks,
                Option::Some(
                    crate::text::trim_ws(
                        crate::text::strip_prefix_rec(lines[j], "*** Move to: "@),
                    ),
                ),
            );
        } else if "@@"@.is_prefix_of(lines[j]) {
            lemma_upd_scan_bounds(lines, j + 1, Seq::empty(), flush_chunk(chunks, cur), np);
        } else if " "@.is_prefix_of(lines[j]) {
            lemma_upd_scan_bounds(
                lines,
                j + 1,
                cur.push((LineType::Context, lines[j].skip(1))),
                chunks,
                np,
            );
        } else if "+"@.is_prefix_of(lines[j]) {
            lemma_upd_scan_bounds(
                lines,
                j + 1,
                cur.push((LineType::Insertion, lines[j].skip(1))),
                chunks,
                np,
            );
        } else if "-"@.is_prefix_of(lines[j]) {
            lemma_upd_scan_bounds(
                lines,
                j + 1,
                cur.push((LineType::Deletion, lines[j].skip(1))),
                chunks,
                np,
            );
        } else {
            lemma_upd_scan_bounds(lines, j + 1, cur, chunks, np);
        }
    }
}

/// Whether every hunk of a list carries the zero positional hint and at
/// least one line.
pub open spec fn chunks_shaped(cs: Seq<crate::data::chunk::ChunkView>) -> bool {
    forall|t: int|
        0 <= t < cs.len() ==> (#[trigger] cs[t]).orig_index == 0 && cs[t].lines.len() > 0
}

/// Every hunk the update walk yields carries the zero positional hint and at
/// least one line, provided the hunks collected so far do.
pub proof fn lemma_upd_scan_shape(
    lines: Seq<Seq<char>>,
    j: int,
    cur: Seq<(LineType, Seq<char>)>,
    chunks: Seq<crate::data::chunk::ChunkView>,
    np: Option<Seq<char>>,
)
    requires
        chunks_shaped(chunks),
    ensures
        chunks_shaped(upd_scan(lines, j, cur, chunks, np).0),
    decreases lines.len() - j,
{
    if j < 0 || j >= lines.len() || upd_stop(lines[j]) {
        let out = flush_chunk(chunks, cur);
        assert forall|t: int| 0 <= t < out.len() implies (#[trigger] out[t]).orig_index == 0
            && out[t].lines.len() > 0 by {
            if t < chunks.len() {
            } else {
                assert(cur.len() > 0);
            }
        }
        assert(chunks_shaped(out));
    } else if "*** Move to: "@.is_prefix_of(lines[j]) {
        lemma_upd_scan_shape(
            lines,
            j + 1,
            cur,
            chunks,
            Option::Some(
                crate::text::trim_ws(crate::text::strip_prefix_rec(lines[j], "*** Move to: "@)),
            ),
        );
    } else if "@@"@.is_prefix_of(lines[j]) {
        let fc = flush_chunk(chunks, cur);
        assert forall|t: int| 0 <= t < fc.len() implies (#[trigger] fc[t]).orig_index == 0
            && fc[t].lines.len() > 0 by {
            if t < chunks.len() {
            } else {
                assert(cur.len() > 0);
            }
        }
        assert(chunks_shaped(fc));
        lemma_upd_scan_shape(lines, j + 1, Seq::empty(), fc, np);
    } else if " "@.is_prefix_of(lines[j]) {
        lemma_upd_scan_shape(
            lines,
            j + 1,
            cur.push((LineType::Context, lines[j].skip(1))),
            chunks,
            np,
        );
    } else if "+"@.is_prefix_of(lines[j]) {
        lemma_upd_scan_shape(
            lines,
            j + 1,
            cur.push((LineType::Insertion, lines[j].skip(1))),
            chunks,
            np,
        );
    } else if "-"@.is_prefix_of(lines[j]) {
        lemma_upd_scan_shape(
            lines,
            j + 1,
            cur.push((LineType::Deletion, lines[j].skip(1))),
            chunks,
            np,
        );
    } else {
        lemma_upd_scan_shape(lines, j + 1, cur, chunks, np);
    }
}

/// The action an update directive at line `i` parses to.
pub open spec fn update_action_spec(
    lines: Seq<Seq<char>>,
    i: int,
) -> crate::data::patch_action::ActionView {
    let scanned = upd_scan(lines, i + 1, Seq::empty(), Seq::empty(), Option::None);
    crate::data::patch_action::ActionView {
        type_: crate::data::action_type::ActionType::Update,
        path: crate::text::trim_ws(crate::text::strip_prefix_rec(lines[i], "*** Update File: "@)),
        new_path: scanned.1,
        chunks: scanned.0,
    }
}

/// Whether the trimmed line is the given kind of file directive.
pub open spec fn is_directive(l: Seq<char>, marker: Seq<char>) -> bool {
    marker.is_prefix_of(crate::text::trim_ws(l))
}

/// The actions the directive walk yields from line `i` on: lines before the
/// final one are inspected in order, each recognised directive contributes
/// its parsed action and the walk resumes after its body, and anything else
/// is skipped.
pub open spec fn parse_walk(lines: Seq<Seq<char>>, i: int) -> Seq<
    crate::data::patch_action::ActionView,
>
    decreases lines.len() - i
        via parse_walk_decreases
{
    if i < 0 || i >= lines.len() - 1 {
        Seq::empty()
    } else if is_directive(lines[i], "*** Add File: "@) {
        seq![add_action_spec(lines, i)] + parse_walk(lines, scan_end(lines, i + 1))
    } else if is_directive(lines[i], "*** Update File: "@) {
        seq![update_action_spec(lines, i)] + parse_walk(
            lines,
            upd_scan(lines, i + 1, Seq::empty(), Seq::empty(), Option::None).2,
        )
    } else if is_directive(lines[i], "*** Delete File: "@) {
        seq![delete_action_spec(lines, i)] + parse_walk(lines, scan_end(lines, i + 1))
    } else {
        parse_walk(lines, i + 1)
    }
}

#[via_fn]
proof fn parse_walk_decreases(lines: Seq<Seq<char>>, i: int) {
    if 0 <= i < lines.len() - 1 {
        lemma_scan_end_bounds(lines, i + 1);
        lemma_upd_scan_bounds(lines, i + 1, Seq::empty(), Seq::empty(), Option::None);
    }
}

/// The shape each parsed action has on arrival from the directive parsers:
/// an add carries exactly one well-formed, all-insertion hunk; a delete
/// carries at most one all-deletion hunk; an update's hunks are non-empty
/// and carry the parser's zero positional hint; only updates may rename.
pub open spec fn action_shape_ok(a: crate::data::patch_action::ActionView) -> bool {
    match a.type_ {
        crate::data::action_type::ActionType::Add => {
            &&& a.new_path is None
            &&& a.chunks.len() == 1
            &&& a.chunks[0].wf()
            &&& a.chunks[0].orig_index == 0
            &&& forall|k: int|
                0 <= k < a.chunks[0].lines.len() ==> (#[trigger] a.chunks[0].lines[k]).0 is Insertion
        },
        crate::data::action_type::ActionType::Delete => {
            &&& a.new_path is None
            &&& a.chunks.len() <= 1
            &&& forall|j: int, k: int|
                0 <= j < a.chunks.len() && 0 <= k < a.chunks[j].lines.len() ==> (
                #[trigger] a.chunks[j].lines[k]).0 is Deletion
        },
        crate::data::action_type::ActionType::Update => {
            forall|j: int|
                0 <= j < a.chunks.len() ==> (#[trigger] a.chunks[j]).orig_index == 0
                    && a.chunks[j].lines.len() > 0
        },
    }
}

/// Walks the lines of a patch and extracts its file directives: adds,
/// updates (with hunks and an optional rename) and deletes.
pub struct Parser {
    /// The lines of the patch text.
    pub lines: Vec<String>,
    /// The line the parser will look at next.
    pub index: usize,
}

impl Parser {
    /// A parser over the lines of the given patch content; content that
    /// trims to nothing yields no lines at all.
    pub fn new(patch_content: &str) -> (r: Self)
        ensures
            r.index == 0,
            trim_ws(patch_content@).len() == 0 ==> r.lines.deep_view() == Seq::<Seq<char>>::empty(),
            trim_ws(patch_content@).len() != 0 ==> r.lines.deep_view() == split_lines_spec(
                patch_content@,
            ),
    {
        let t = trim_str(patch_content);
        let lines = if t.unicode_len() == 0 {
            let v: Vec<String> = Vec::new();
            proof {
                assert(v.deep_view() =~~= Seq::<Seq<char>>::empty());
            }
            v
        } else {
            split_lines(patch_content)
        };
        Parser { lines, index: 0 }
    }

    /// Parses the patch into its list of file actions: exactly the actions
    /// the directive walk [`parse_walk`] yields from the second line, each
    /// with the shape its directive kind promises. Fails exactly when the
    /// patch holds no file directive at all.
    pub fn parse(&mut self) -> (r: Result<Vec<PatchAction>, ZenpatchError>)
        requires
            old(self).lines@.len() >= 1,
        ensures
            final(self).lines == old(self).lines,
            r is Ok <==> parse_walk(old(self).lines.deep_view(), 1).len() > 0,
            r is Ok ==> r->Ok_0.deep_view() == parse_walk(old(self).lines.deep_view(), 1),
            r is Ok ==> forall|i: int|
                0 <= i < r->Ok_0@.len() ==> action_shape_ok(#[trigger] r->Ok_0.deep_view()[i]),
            r is Err ==> r->Err_0 is InvalidPatchFormat,
    {
        let ghost ld = self.lines.deep_view();
        self.index = 1;
        let mut actions: Vec<PatchAction> = Vec::new();
        let n = self.lines.len();
        proof {
            assert(ld.len() == n);
            assert(actions.deep_view() + parse_walk(ld, 1) =~~= parse_walk(ld, 1));
        }
        while self.index < n - 1
            invariant
                n == self.lines@.len() >= 1,
                self.lines == old(self).lines,
                ld == self.lines.deep_view(),
                self.index >= 1,
                actions.deep_view() + parse_walk(ld, self.index as int) == parse_walk(ld, 1),
                forall|i: int|
                    0 <= i < actions@.len() ==> action_shape_ok(
                        #[trigger] actions.deep_view()[i],
                    ),
            decreases n - self.index,
        {
            let ghost idx = self.index as int;
            proof {
                assert(ld[idx] == self.lines@[idx]@);
            }
            let line = &self.lines[self.index];
            let trimmed = trim_str(line.as_str());
            let is_add = str_starts_with(trimmed, "*** Add File: ");
            let is_update = str_starts_with(trimmed, "*** Update File: ");
            let is_delete = str_starts_with(trimmed, "*** Delete File: ");
            if is_add {
                match self.parse_add_file() {
                    Ok(a) => {
                        let ghost prev = actions.deep_view();
                        let ghost av = a@;
                        proof {
                            assert(av == add_action_spec(ld, idx));
                            assert(parse_walk(ld, idx) == seq![av] + parse_walk(
                                ld,
                                scan_end(ld, idx + 1),
                            ));
                        }
                        actions.push(a);
                        proof {
                            assert(actions.deep_view() =~~= prev.push(av));
                            assert(prev.push(av) + parse_walk(ld, self.index as int) =~~= prev + (
                            seq![av] + parse_walk(ld, self.index as int)));
                            assert forall|i: int| 0 <= i < actions@.len() implies action_shape_ok(
                                #[trigger] actions.deep_view()[i],
                            ) by {
                                if i < prev.len() {
                                    assert(actions.deep_view()[i] == prev[i]);
                                } else {
                                    assert(actions.deep_view()[i] == av);
                                }
                            }
                        }
                    },
                    Err(e) => {
                        return Err(e);
                    },
                }
            } else if is_update {
                match self.parse_update_file() {
                    Ok(a) => {
                        let ghost prev = actions.deep_view();
                        let ghost av = a@;
                        proof {
                            assert(av == update_action_spec(ld, idx));
                            assert(parse_walk(ld, idx) == seq![av] + parse_walk(
                                ld,
                                upd_scan(ld, idx + 1, Seq::empty(), Seq::empty(), Option::None).2,
                            ));
                        }
                        actions.push(a);
                        proof {
                            assert(actions.deep_view() =~~= prev.push(av));
                            assert(prev.push(av) + parse_walk(ld, self.index as int) =~~= prev + (
                            seq![av] + parse_walk(ld, self.index as int)));
                            assert forall|i: int| 0 <= i < actions@.len() implies action_shape_ok(
                                #[trigger] actions.deep_view()[i],
                            ) by {
                                if i < prev.len() {
                                    assert(actions.deep_view()[i] == prev[i]);
                                } else {
                                    assert(actions.deep_view()[i] == av);
                                }
                            }
                        }
                    },
                    Err(e) => {
                        return Err(e);
                    },
                }
            } else if is_delete {
                match self.parse_delete_file() {
                    Ok(a) => {
                        let ghost prev = actions.deep_view();
                        let ghost av = a@;
                        proof {
                            assert(av == delete_action_spec(ld, idx));
                            assert(parse_walk(ld, idx) == seq![av] + parse_walk(
                                ld,
                                scan_end(ld, idx + 1),
                            ));
                        }
                        actions.push(a);
                        proof {
                            assert(actions.deep_view() =~~= prev.push(av));
                            assert(prev.push(av) + parse_walk(ld, self.index as int) =~~= prev + (
                            seq![av] + parse_walk(ld, self.index as int)));
                            assert forall|i: int| 0 <= i < actions@.len() implies action_shape_ok(
                                #[trigger] actions.deep_view()[i],
                            ) by {
                                if i < prev.len() {
                                    assert(actions.deep_view()[i] == prev[i]);
                                } else {
                                    assert(actions.deep_view()[i] == av);
                                }
                            }
                        }
                    },
                    Err(e) => {
                        return Err(e);
                    },
                }
            } else {
                proof {
                    assert(parse_walk(ld, idx) == parse_walk(ld, idx + 1));
                }
                self.index = self.index + 1;
            }
        }
        proof {
            assert(parse_walk(ld, self.index as int) =~= Seq::<
                crate::data::patch_action::ActionView,
            >::empty());
            assert(actions.deep_view() + parse_walk(ld, self.index as int) =~~= actions.deep_view());
            assert(actions.deep_view().len() == actions@.len());
        }
        if actions.len() == 0 {
            return Err(
                ZenpatchError::InvalidPatchFormat(
                    String::from_str("No file directive found in patch."),
                ),
            );
        }
        Ok(actions)
    }

    /// Parses an add directive: the new path, taken from the directive line,
    /// and one well-formed hunk holding its `+`-prefixed content as
    /// insertions. The action and the resume point are exactly what
    /// [`add_action_spec`] and [`scan_end`] give for this line.
    fn parse_add_file(&mut self) -> (r: Result<PatchAction, ZenpatchError>)
        requires
            old(self).index < old(self).lines@.len(),
        ensures
            final(self).lines == old(self).lines,
            old(self).index < final(self).index <= final(self).lines@.len(),
            r is Ok,
            r->Ok_0@ == add_action_spec(
                old(self).lines.deep_view(),
                old(self).index as int,
            ),
            final(self).index == scan_end(old(self).lines.deep_view(), old(self).index + 1),
            crate::parser::parser::action_shape_ok(r->Ok_0@),
    {
        let ghost ld = self.lines.deep_view();
        let ghost i0 = self.index as int;
        proof {
            assert(ld[i0] == self.lines@[i0]@);
        }
        let line = &self.lines[self.index];
        let stripped = strip_prefix_repeat(line.as_str(), "*** Add File: ");
        let filename = trim_str(stripped).to_owned();
        let n = self.lines.len();
        self.index = self.index + 1;
        let mut lines: Vec<(LineType, String)> = Vec::new();
        let mut ins_lines: Vec<String> = Vec::new();
        proof {
            reveal(Seq::filter);
            assert(ld.subrange(i0 + 1, i0 + 1) =~= Seq::<Seq<char>>::empty());
            assert(crate::data::chunk::lines_view(lines@) =~= plus_lines(
                ld.subrange(i0 + 1, i0 + 1),
            ));
            assert(crate::data::chunk::proj_ins(crate::data::chunk::lines_view(lines@)) =~= Seq::<
                Seq<char>,
            >::empty());
            assert(crate::data::chunk::proj_del(crate::data::chunk::lines_view(lines@)) =~= Seq::<
                Seq<char>,
            >::empty());
            assert(ins_lines.deep_view() =~~= Seq::<Seq<char>>::empty());
        }
        while self.index < n
            invariant
                n == self.lines@.len(),
                self.lines == old(self).lines,
                ld == self.lines.deep_view(),
                i0 == old(self).index,
                i0 < self.index <= n,
                crate::data::chunk::lines_view(lines@) == plus_lines(
                    ld.subrange(i0 + 1, self.index as int),
                ),
                forall|k: int|
                    i0 + 1 <= k < self.index ==> !"*** "@.is_prefix_of(#[trigger] ld[k]),
                ins_lines.deep_view() == crate::data::chunk::proj_ins(
                    crate::data::chunk::lines_view(lines@),
                ),
                crate::data::chunk::proj_del(crate::data::chunk::lines_view(lines@)) == Seq::<
                    Seq<char>,
                >::empty(),
            ensures
                self.index < n ==> "*** "@.is_prefix_of(ld[self.index as int]),
            decreases n - self.index,
        {
            let line_content = &self.lines[self.index];
            proof {
                assert(ld[self.index as int] == self.lines@[self.index as int]@);
            }
            if str_starts_with(line_content.as_str(), "*** ") {
                break ;
            }
            let ghost prev_body = ld.subrange(i0 + 1, self.index as int);
            proof {
                assert(ld.subrange(i0 + 1, self.index + 1) =~= prev_body.push(
                    ld[self.index as int],
                ));
                lemma_plus_lines_push(prev_body, ld[self.index as int]);
            }
            if str_starts_with(line_content.as_str(), "+") {
                proof {
                    reveal_strlit("+");
                }
                let content = line_content.as_str().substring_char(
                    1,
                    line_content.as_str().unicode_len(),
                ).to_owned();
                let ghost prev_lv = crate::data::chunk::lines_view(lines@);
                let ghost prev_ins = ins_lines.deep_view();
                let ghost cv = content@;
                proof {
                    assert(cv =~= ld[self.index as int].skip(1));
                }
                lines.push((LineType::Insertion, content.clone()));
                ins_lines.push(content);
                proof {
                    assert(crate::data::chunk::lines_view(lines@) =~= prev_lv.push(
                        (LineType::Insertion, cv),
                    ));
                    crate::data::chunk::lemma_proj_push(prev_lv, (LineType::Insertion, cv));
                    assert(ins_lines.deep_view() =~~= prev_ins.push(cv));
                }
            }
            self.index = self.index + 1;
        }
        proof {
            if self.index < n {
                assert("*** "@.is_prefix_of(ld[self.index as int]));
            }
            lemma_scan_end_at(ld, i0 + 1, self.index as int);
        }
        let chunk = Chunk { orig_index: 0, lines, del_lines: Vec::new(), ins_lines };
        let ghost chv = chunk@;
        proof {
            assert(chv.del_lines =~= Seq::<Seq<char>>::empty());
            assert(chv.wf());
        }
        let action = PatchAction {
            type_: ActionType::Add,
            path: filename,
            new_path: Option::None,
            chunks: vec![chunk],
        };
        proof {
            assert(action@.chunks.len() == 1);
            assert(action@.chunks[0] == chv);
            assert(action@ =~~= add_action_spec(ld, i0));
            assert(action@.chunks[0].wf());
            assert forall|k: int| 0 <= k < action@.chunks[0].lines.len() implies (
            #[trigger] action@.chunks[0].lines[k]).0 is Insertion by {
                assert(action@.chunks[0].lines[k] == chv.lines[k]);
            }
            assert(crate::parser::parser::action_shape_ok(action@));
        }
        Ok(action)
    }

    /// Parses an update directive: the updated path, taken from the
    /// directive line, the hunks introduced by `@@` with each line
    /// classified by its first character, and an optional rename. The action
    /// and the resume point are exactly what [`update_action_spec`] and
    /// [`upd_scan`] give for this line; the deletion and insertion
    /// projections are derived afterwards, when the whole patch is
    /// assembled.
    fn parse_update_file(&mut self) -> (r: Result<PatchAction, ZenpatchError>)
        requires
            old(self).index < old(self).lines@.len(),
        ensures
            final(self).lines == old(self).lines,
            old(self).index < final(self).index <= final(self).lines@.len(),
            r is Ok,
            r->Ok_0@ == update_action_spec(
                old(self).lines.deep_view(),
                old(self).index as int,
            ),
            final(self).index == upd_scan(
                old(self).lines.deep_view(),
                old(self).index + 1,
                Seq::empty(),
                Seq::empty(),
                Option::None,
            ).2,
            crate::parser::parser::action_shape_ok(r->Ok_0@),
    {
        let ghost ld = self.lines.deep_view();
        let ghost i0 = self.index as int;
        proof {
            assert(ld[i0] == self.lines@[i0]@);
        }
        let line = &self.lines[self.index];
        let stripped = strip_prefix_repeat(line.as_str(), "*** Update File: ");
        let filename = trim_str(stripped).to_owned();
        let n = self.lines.len();
        self.index = self.index + 1;
        let mut chunks: Vec<Chunk> = Vec::new();
        let mut new_path: Option<String> = Option::None;
        let mut current_chunk = Chunk::new();
        let ghost total = upd_scan(ld, i0 + 1, Seq::empty(), Seq::empty(), Option::None);
        proof {
            assert(chunks.deep_view() =~~= Seq::<crate::data::chunk::ChunkView>::empty());
        }

        while self.index < n
            invariant
                n == self.lines@.len(),
                self.lines == old(self).lines,
                ld == self.lines.deep_view(),
                i0 == old(self).index,
                i0 < self.index <= n,
                current_chunk@.orig_index == 0,
                current_chunk@.del_lines == Seq::<Seq<char>>::empty(),
                current_chunk@.ins_lines == Seq::<Seq<char>>::empty(),
                total == upd_scan(
                    ld,
                    self.index as int,
                    current_chunk@.lines,
                    chunks.deep_view(),
                    crate::data::patch_action::opt_path_view(new_path),
                ),
            ensures
                self.index < n ==> upd_stop(ld[self.index as int]),
            decreases n - self.index,
        {
            let line = self.lines[self.index].clone();
            proof {
                assert(line@ == ld[self.index as int]);
            }
            let stop = str_starts_with(line.as_str(), "*** End Patch") || str_starts_with(
                line.as_str(),
                "*** Add File:",
            ) || str_starts_with(line.as_str(), "*** Update File:") || str_starts_with(
                line.as_str(),
                "*** Delete File:",
            );
            if stop {
                break ;
            }
            if str_starts_with(line.as_str(), "*** Move to: ") {
                let stripped_move = strip_prefix_repeat(line.as_str(), "*** Move to: ");
                new_path = Option::Some(trim_str(stripped_move).to_owned());
                self.index = self.index + 1;
                continue ;
            }
            if str_starts_with(line.as_str(), "@@") {
                let ghost prev_chunks = chunks.deep_view();
                let ghost cc = current_chunk@;
                if current_chunk.lines.len() > 0 {
                    chunks.push(current_chunk);
                    proof {
                        assert(chunks.deep_view() =~~= flush_chunk(prev_chunks, cc.lines));
                    }
                } else {
                    proof {
                        assert(cc.lines.len() == 0);
                        assert(chunks.deep_view() == flush_chunk(prev_chunks, cc.lines));
                    }
                }
                current_chunk = Chunk::new();
                self.index = self.index + 1;
                continue ;
            }
            let marked_context = str_starts_with(line.as_str(), " ");
            let marked_insertion = str_starts_with(line.as_str(), "+");
            let marked_deletion = str_starts_with(line.as_str(), "-");
            if marked_context || marked_insertion || marked_deletion {
                let line_type = if marked_context {
                    LineType::Context
                } else if marked_insertion {
                    LineType::Insertion
                } else {
                    LineType::Deletion
                };
                proof {
                    reveal_strlit(" ");
                    reveal_strlit("+");
                    reveal_strlit("-");
                }
                let content = line.as_str().substring_char(1, line.as_str().unicode_len()).to_owned(
                );
                let ghost prev_cur = current_chunk@.lines;
                proof {
                    assert(content@ =~= ld[self.index as int].skip(1));
                }
                current_chunk.lines.push((line_type, content));
                proof {
                    assert(current_chunk@.lines =~= prev_cur.push(
                        (line_type, ld[self.index as int].skip(1)),
                    ));
                }
            }
            self.index = self.index + 1;
        }

        let ghost prev_chunks = chunks.deep_view();
        let ghost cc = current_chunk@;
        if current_chunk.lines.len() > 0 {
            chunks.push(current_chunk);
            proof {
                assert(chunks.deep_view() =~~= flush_chunk(prev_chunks, cc.lines));
            }
        } else {
            proof {
                assert(cc.lines.len() == 0);
                assert(chunks.deep_view() == flush_chunk(prev_chunks, cc.lines));
            }
        }
        proof {
            assert(total == (chunks.deep_view(), crate::data::patch_action::opt_path_view(new_path), self.index as int));
        }

        let action = PatchAction { type_: ActionType::Update, path: filename, new_path, chunks };
        proof {
            assert(action@ =~~= update_action_spec(ld, i0));
            assert(chunks_shaped(Seq::<crate::data::chunk::ChunkView>::empty()));
            lemma_upd_scan_shape(ld, i0 + 1, Seq::empty(), Seq::empty(), Option::None);
            assert(chunks_shaped(action@.chunks));
            assert(crate::parser::parser::action_shape_ok(action@));
        }
        Ok(action)
    }

    /// Parses a delete directive: the removed path, taken from the directive
    /// line, and at most one hunk holding its `-`-prefixed content as
    /// deletion entries. The action and the resume point are exactly what
    /// [`delete_action_spec`] and [`scan_end`] give for this line; the
    /// deletion projection is derived afterwards, when the whole patch is
    /// assembled.
    fn parse_delete_file(&mut self) -> (r: Result<PatchAction, ZenpatchError>)
        requires
            old(self).index < old(self).lines@.len(),
        ensures
            final(self).lines == old(self).lines,
            old(self).index < final(self).index <= final(self).lines@.len(),
            r is Ok,
            r->Ok_0@ == delete_action_spec(
                old(self).lines.deep_view(),
                old(self).index as int,
            ),
            final(self).index == scan_end(old(self).lines.deep_view(), old(self).index + 1),
            crate::parser::parser::action_shape_ok(r->Ok_0@),
    {
        let ghost ld = self.lines.deep_view();
        let ghost i0 = self.index as int;
        proof {
            assert(ld[i0] == self.lines@[i0]@);
        }
        let line = &self.lines[self.index];
        let stripped = strip_prefix_repeat(line.as_str(), "*** Delete File: ");
        let filename = trim_str(stripped).to_owned();
        let n = self.lines.len();
        self.index = self.index + 1;
        let mut lines: Vec<(LineType, String)> = Vec::new();
        proof {
            reveal(Seq::filter);
            assert(ld.subrange(i0 + 1, i0 + 1) =~= Seq::<Seq<char>>::empty());
            assert(crate::data::chunk::lines_view(lines@) =~= minus_lines(
                ld.subrange(i0 + 1, i0 + 1),
            ));
        }
        while self.index < n
            invariant
                n == self.lines@.len(),
                self.lines == old(self).lines,
                ld == self.lines.deep_view(),
                i0 == old(self).index,
                i0 < self.index <= n,
                crate::data::chunk::lines_view(lines@) == minus_lines(
                    ld.subrange(i0 + 1, self.index as int),
                ),
                forall|k: int|
                    i0 + 1 <= k < self.index ==> !"*** "@.is_prefix_of(#[trigger] ld[k]),
            ensures
                self.index < n ==> "*** "@.is_prefix_of(ld[self.index as int]),
            decreases n - self.index,
        {
            let line_content = &self.lines[self.index];
            proof {
                assert(ld[self.index as int] == self.lines@[self.index as int]@);
            }
            if str_starts_with(line_content.as_str(), "*** ") {
                break ;
            }
            let ghost prev_body = ld.subrange(i0 + 1, self.index as int);
            proof {
                assert(ld.subrange(i0 + 1, self.index + 1) =~= prev_body.push(
                    ld[self.index as int],
                ));
                lemma_minus_lines_push(prev_body, ld[self.index as int]);
            }
            if str_starts_with(line_content.as_str(), "-") {
                proof {
                    reveal_strlit("-");
                }
                let content = line_content.as_str().substring_char(
                    1,
                    line_content.as_str().unicode_len(),
                ).to_owned();
                let ghost prev_lv = crate::data::chunk::lines_view(lines@);
                let ghost cv = content@;
                proof {
                    assert(cv =~= ld[self.index as int].skip(1));
                }
                lines.push((LineType::Deletion, content));
                proof {
                    assert(crate::data::chunk::lines_view(lines@) =~= prev_lv.push(
                        (LineType::Deletion, cv),
                    ));
                }
            }
            self.index = self.index + 1;
        }
        proof {
            lemma_scan_end_at(ld, i0 + 1, self.index as int);
        }
        let empty_content = lines.len() == 0;
        let ghost lv = crate::data::chunk::lines_view(lines@);
        let chunks = if empty_content {
            Vec::new()
        } else {
            vec![Chunk { orig_index: 0, lines, del_lines: Vec::new(), ins_lines: Vec::new() }]
        };
        let action = PatchAction {
            type_: ActionType::Delete,
            path: filename,
            new_path: Option::None,
            chunks,
        };
        proof {
            if !empty_content {
                assert(action@.chunks.len() == 1);
                assert(action@.chunks[0].lines == lv);
                assert(action@.chunks[0].del_lines =~= Seq::<Seq<char>>::empty());
                assert(action@.chunks[0].ins_lines =~= Seq::<Seq<char>>::empty());
            } else {
                assert(action@.chunks.len() == 0);
                assert(lv.len() == lines@.len());
            }
            assert(action@ =~~= delete_action_spec(ld, i0));
            assert forall|j: int, k: int|
                0 <= j < action@.chunks.len() && 0 <= k < action@.chunks[j].lines.len() implies (
            #[trigger] action@.chunks[j].lines[k]).0 is Deletion by {
                assert(action@.chunks[j].lines == lv);
                assert(lv[k] == minus_lines(ld.subrange(i0 + 1, self.index as int))[k]);
            }
            assert(crate::parser::parser::action_shape_ok(action@));
        }
        Ok(action)
    }
}

} // verus!
